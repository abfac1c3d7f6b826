use vstd::prelude::*;

verus! {

/// Keys of `s` are strictly increasing.
pub open spec fn keys_increasing<V>(s: Seq<(u64, V)>) -> bool {
    forall|i: int, j: int| 0 <= i < j < s.len() ==> s[i].0 < s[j].0
}

/// Some entry of `s` has key `k`.
pub open spec fn has_key<V>(s: Seq<(u64, V)>, k: u64) -> bool {
    exists|i: int| 0 <= i < s.len() && s[i].0 == k
}

/// Position of an entry of `s` with key `k`.
pub open spec fn key_index<V>(s: Seq<(u64, V)>, k: u64) -> int {
    choose|i: int| 0 <= i < s.len() && s[i].0 == k
}

/// The map that an association list with distinct keys stands for.
pub open spec fn entries_map<V>(s: Seq<(u64, V)>) -> Map<u64, V> {
    Map::new(|k: u64| has_key(s, k), |k: u64| s[key_index(s, k)].1)
}

/// Each entry of a list with increasing keys is what the map holds under its key.
pub proof fn lemma_entry_in_map<V>(s: Seq<(u64, V)>, i: int)
    requires
        keys_increasing(s),
        0 <= i < s.len(),
    ensures
        entries_map(s).contains_key(s[i].0),
        entries_map(s)[s[i].0] == s[i].1,
{
    assert(has_key(s, s[i].0));
    let j = key_index(s, s[i].0);
    assert(s[j].0 == s[i].0);
    if j < i {
        assert(s[j].0 < s[i].0);
    } else if i < j {
        assert(s[i].0 < s[j].0);
    }
}

/// A map is the one a list with increasing keys stands for when it holds exactly the list's
/// entries.
pub proof fn lemma_map_of_entries<V>(s: Seq<(u64, V)>, m: Map<u64, V>)
    requires
        keys_increasing(s),
        forall|i: int| 0 <= i < s.len() ==> #[trigger] m.contains_key(s[i].0) && m[s[i].0] == s[i].1,
        forall|k: u64| #[trigger] m.contains_key(k) ==> has_key(s, k),
    ensures
        entries_map(s) == m,
{
    assert forall|k: u64| #[trigger] entries_map(s).contains_key(k) <==> m.contains_key(k) by {
        if has_key(s, k) {
            let i = choose|i: int| 0 <= i < s.len() && s[i].0 == k;
            assert(m.contains_key(s[i].0));
        }
    }
    assert forall|k: u64| #[trigger] entries_map(s).contains_key(k) implies entries_map(s)[k]
        == m[k] by {
        let i = choose|i: int| 0 <= i < s.len() && s[i].0 == k;
        lemma_entry_in_map(s, i);
        assert(m.contains_key(s[i].0));
    }
    assert(entries_map(s) =~= m);
}

/// A finite map from `u64` keys, kept as a list of entries ordered by key.
pub struct OrderedMap<V> {
    entries: Vec<(u64, V)>,
}

impl<V> View for OrderedMap<V> {
    type V = Map<u64, V>;

    closed spec fn view(&self) -> Map<u64, V> {
        entries_map(self.entries@)
    }
}

impl<V> OrderedMap<V> {
    #[verifier::type_invariant]
    closed spec fn well_formed(&self) -> bool {
        keys_increasing(self.entries@)
    }

    spec fn key_seq(&self) -> Seq<u64> {
        self.entries@.map_values(|e: (u64, V)| e.0)
    }

    spec fn value_seq(&self) -> Seq<V> {
        self.entries@.map_values(|e: (u64, V)| e.1)
    }

    proof fn lemma_ordered(&self)
        requires
            keys_increasing(self.entries@),
        ensures
            self.key_seq().len() == self.value_seq().len(),
            forall|i: int, j: int|
                0 <= i < j < self.key_seq().len() ==> self.key_seq()[i] < self.key_seq()[j],
            forall|i: int|
                0 <= i < self.key_seq().len() ==> #[trigger] self@.contains_key(self.key_seq()[i])
                    && self@[self.key_seq()[i]] == self.value_seq()[i],
            forall|k: u64|
                #[trigger] self@.contains_key(k) ==> exists|i: int|
                    0 <= i < self.key_seq().len() && self.key_seq()[i] == k,
            self@.dom().finite(),
            self@.dom().len() == self.key_seq().len(),
    {
        let s = self.entries@;
        assert forall|i: int|
            0 <= i < self.key_seq().len() implies #[trigger] self@.contains_key(self.key_seq()[i])
                && self@[self.key_seq()[i]] == self.value_seq()[i] by {
            lemma_entry_in_map(s, i);
        }
        assert forall|k: u64| #[trigger] self@.contains_key(k) implies exists|i: int|
            0 <= i < self.key_seq().len() && self.key_seq()[i] == k by {
            let i = choose|i: int| 0 <= i < s.len() && s[i].0 == k;
            assert(self.key_seq()[i] == k);
        }
        let ks = self.key_seq();
        assert(ks.no_duplicates()) by {
            assert forall|i: int, j: int| 0 <= i < ks.len() && 0 <= j < ks.len() && i != j implies ks[i]
                != ks[j] by {
                if i < j {
                    assert(s[i].0 < s[j].0);
                } else {
                    assert(s[j].0 < s[i].0);
                }
            }
        }
        assert(self@.dom() =~= ks.to_set());
        ks.unique_seq_to_set();
    }

    pub fn new() -> (r: OrderedMap<V>)
        ensures
            r@ == Map::<u64, V>::empty(),
    {
        let r = OrderedMap { entries: Vec::new() };
        proof {
            lemma_map_of_entries(r.entries@, Map::<u64, V>::empty());
        }
        r
    }

    pub fn len(&self) -> (r: usize)
        ensures
            r == self@.dom().len(),
    {
        proof {
            use_type_invariant(self);
            self.lemma_ordered();
        }
        self.entries.len()
    }

    /// Position of `k`, or the position where `k` would be inserted.
    fn find(&self, k: u64) -> (r: Result<usize, usize>)
        ensures
            match r {
                Ok(i) => i < self.entries@.len() && self.entries@[i as int].0 == k,
                Err(p) => p <= self.entries@.len() && (forall|i: int|
                    0 <= i < p ==> self.entries@[i].0 < k) && (forall|i: int|
                    p <= i < self.entries@.len() ==> self.entries@[i].0 > k),
            },
    {
        proof {
            use_type_invariant(self);
        }
        let mut i: usize = 0;
        while i < self.entries.len()
            invariant
                i <= self.entries@.len(),
                keys_increasing(self.entries@),
                forall|j: int| 0 <= j < i ==> self.entries@[j].0 < k,
            decreases self.entries@.len() - i,
        {
            let key = self.entries[i].0;
            if key == k {
                return Ok(i);
            }
            if key > k {
                return Err(i);
            }
            i = i + 1;
        }
        Err(i)
    }

    pub fn contains_key(&self, k: u64) -> (r: bool)
        ensures
            r == self@.contains_key(k),
    {
        proof {
            use_type_invariant(self);
        }
        match self.find(k) {
            Ok(i) => {
                proof {
                    lemma_entry_in_map(self.entries@, i as int);
                }
                true
            },
            Err(_) => false,
        }
    }

    pub fn get(&self, k: u64) -> (r: Option<&V>)
        ensures
            match r {
                Some(v) => self@.contains_key(k) && *v == self@[k],
                None => !self@.contains_key(k),
            },
    {
        proof {
            use_type_invariant(self);
        }
        match self.find(k) {
            Ok(i) => {
                proof {
                    lemma_entry_in_map(self.entries@, i as int);
                }
                Some(&self.entries[i].1)
            },
            Err(_) => None,
        }
    }

    /// The largest key, if any.
    pub fn max_key(&self) -> (r: Option<u64>)
        ensures
            match r {
                Some(m) => self@.contains_key(m) && forall|k: u64| #[trigger]
                    self@.contains_key(k) ==> k <= m,
                None => self@.dom() == Set::<u64>::empty(),
            },
    {
        proof {
            use_type_invariant(self);
            self.lemma_ordered();
        }
        let n = self.entries.len();
        if n == 0 {
            proof {
                assert(self@.dom() =~= Set::<u64>::empty());
            }
            None
        } else {
            let m = self.entries[n - 1].0;
            proof {
                assert(self.key_seq()[n - 1] == m);
                assert forall|k: u64| #[trigger] self@.contains_key(k) implies k <= m by {
                    let i = choose|i: int| 0 <= i < self.key_seq().len() && self.key_seq()[i] == k;
                    if i < n - 1 {
                        assert(self.key_seq()[i] < self.key_seq()[n - 1]);
                    }
                }
            }
            Some(m)
        }
    }

    /// The keys in increasing order.
    pub fn keys(&self) -> (r: Vec<u64>)
        ensures
            forall|i: int, j: int| 0 <= i < j < r@.len() ==> r@[i] < r@[j],
            forall|k: u64| self@.contains_key(k) <==> r@.contains(k),
            r@.len() == self@.dom().len(),
            self@.dom().finite(),
    {
        proof {
            use_type_invariant(self);
            self.lemma_ordered();
        }
        let mut r: Vec<u64> = Vec::new();
        let mut i: usize = 0;
        while i < self.entries.len()
            invariant
                i <= self.entries@.len(),
                r@ == self.entries@.subrange(0, i as int).map_values(|e: (u64, V)| e.0),
            decreases self.entries@.len() - i,
        {
            r.push(self.entries[i].0);
            i = i + 1;
            proof {
                assert(r@ =~= self.entries@.subrange(0, i as int).map_values(|e: (u64, V)| e.0));
            }
        }
        proof {
            assert(self.entries@.subrange(0, i as int) =~= self.entries@);
            assert(r@ == self.key_seq());
            assert forall|k: u64| self@.contains_key(k) <==> r@.contains(k) by {
                if self@.contains_key(k) {
                    let i = choose|i: int| 0 <= i < self.key_seq().len() && self.key_seq()[i] == k;
                    assert(r@[i] == k);
                }
                if r@.contains(k) {
                    let i = choose|i: int| 0 <= i < r@.len() && r@[i] == k;
                    assert(self@.contains_key(self.key_seq()[i]));
                }
            }
        }
        r
    }

    pub fn insert(&mut self, k: u64, v: V)
        ensures
            final(self)@ == old(self)@.insert(k, v),
    {
        proof {
            use_type_invariant(&*self);
        }
        let ghost old_s = self.entries@;
        let ghost target = entries_map(old_s).insert(k, v);
        match self.find(k) {
            Ok(i) => {
                let mut entries: Vec<(u64, V)> = Vec::new();
                std::mem::swap(&mut entries, &mut self.entries);
                entries.set(i, (k, v));
                proof {
                    let s = entries@;
                    assert(s =~= old_s.update(i as int, (k, v)));
                    assert(keys_increasing(s));
                    assert forall|j: int| 0 <= j < s.len() implies #[trigger] target.contains_key(
                        s[j].0) && target[s[j].0] == s[j].1 by {
                        if j != i {
                            lemma_entry_in_map(old_s, j);
                        }
                    }
                    assert forall|key: u64| #[trigger] target.contains_key(key) implies has_key(
                        s,
                        key,
                    ) by {
                        if key != k {
                            let j = choose|j: int| 0 <= j < old_s.len() && old_s[j].0 == key;
                            assert(s[j].0 == key);
                        } else {
                            assert(s[i as int].0 == key);
                        }
                    }
                    lemma_map_of_entries(s, target);
                }
                self.entries = entries;
            },
            Err(p) => {
                let mut entries: Vec<(u64, V)> = Vec::new();
                std::mem::swap(&mut entries, &mut self.entries);
                entries.insert(p, (k, v));
                proof {
                    let s = entries@;
                    assert(s =~= old_s.insert(p as int, (k, v)));
                    assert(keys_increasing(s));
                    assert forall|j: int| 0 <= j < s.len() implies #[trigger] target.contains_key(
                        s[j].0) && target[s[j].0] == s[j].1 by {
                        if j < p {
                            lemma_entry_in_map(old_s, j);
                        } else if j > p {
                            lemma_entry_in_map(old_s, j - 1);
                        }
                    }
                    assert forall|key: u64| #[trigger] target.contains_key(key) implies has_key(
                        s,
                        key,
                    ) by {
                        if key != k {
                            let j = choose|j: int| 0 <= j < old_s.len() && old_s[j].0 == key;
                            if j < p {
                                assert(s[j].0 == key);
                            } else {
                                assert(s[j + 1].0 == key);
                            }
                        } else {
                            assert(s[p as int].0 == key);
                        }
                    }
                    lemma_map_of_entries(s, target);
                }
                self.entries = entries;
            },
        }
    }

    /// Removes `k` and hands back its value.
    pub fn remove(&mut self, k: u64) -> (r: Option<V>)
        ensures
            final(self)@ == old(self)@.remove(k),
            match r {
                Some(v) => old(self)@.contains_key(k) && v == old(self)@[k],
                None => !old(self)@.contains_key(k),
            },
    {
        proof {
            use_type_invariant(&*self);
        }
        let ghost old_s = self.entries@;
        let ghost target = entries_map(old_s).remove(k);
        match self.find(k) {
            Ok(i) => {
                proof {
                    lemma_entry_in_map(old_s, i as int);
                }
                let mut entries: Vec<(u64, V)> = Vec::new();
                std::mem::swap(&mut entries, &mut self.entries);
                let e = entries.remove(i);
                proof {
                    let s = entries@;
                    assert(s =~= old_s.remove(i as int));
                    assert(keys_increasing(s));
                    assert forall|j: int| 0 <= j < s.len() implies #[trigger] target.contains_key(
                        s[j].0) && target[s[j].0] == s[j].1 by {
                        if j < i {
                            lemma_entry_in_map(old_s, j);
                        } else {
                            lemma_entry_in_map(old_s, j + 1);
                        }
                    }
                    assert forall|key: u64| #[trigger] target.contains_key(key) implies has_key(
                        s,
                        key,
                    ) by {
                        let j = choose|j: int| 0 <= j < old_s.len() && old_s[j].0 == key;
                        if j < i {
                            assert(s[j].0 == key);
                        } else {
                            assert(j != i);
                            assert(s[j - 1].0 == key);
                        }
                    }
                    lemma_map_of_entries(s, target);
                }
                self.entries = entries;
                Some(e.1)
            },
            Err(_) => {
                proof {
                    assert(entries_map(old_s).remove(k) =~= entries_map(old_s));
                }
                None
            },
        }
    }

    /// Keeps the entries whose key is at least `min`.
    pub fn retain_from(&mut self, min: u64)
        ensures
            final(self)@ == old(self)@.restrict(old(self)@.dom().filter(|k: u64| k >= min)),
    {
        proof {
            use_type_invariant(&*self);
        }
        let ghost old_s = self.entries@;
        let ghost target = entries_map(old_s).restrict(entries_map(old_s).dom().filter(|k: u64| k >= min));
        let p = match self.find(min) {
            Ok(i) => i,
            Err(p) => p,
        };
        let mut entries: Vec<(u64, V)> = Vec::new();
        std::mem::swap(&mut entries, &mut self.entries);
        let tail = entries.split_off(p);
        proof {
            let s = tail@;
            assert(s =~= old_s.subrange(p as int, old_s.len() as int));
            assert forall|j: int| 0 <= j < s.len() implies #[trigger] target.contains_key(s[j].0)
                && target[s[j].0] == s[j].1 by {
                lemma_entry_in_map(old_s, j + p);
            }
            assert forall|key: u64| #[trigger] target.contains_key(key) implies has_key(s, key) by {
                let j = choose|j: int| 0 <= j < old_s.len() && old_s[j].0 == key;
                assert(s[j - p].0 == key);
            }
            lemma_map_of_entries(s, target);
        }
        self.entries = tail;
    }
}


impl<V> OrderedMap<V> {
    /// Takes out the entry with the smallest key.
    pub fn pop_first(&mut self) -> (r: Option<(u64, V)>)
        ensures
            old(self)@.dom().len() == 0 ==> r is None && final(self)@ == old(self)@,
            match r {
                Some(e) => old(self)@.contains_key(e.0) && e.1 == old(self)@[e.0]
                    && final(self)@ == old(self)@.remove(e.0)
                    && forall|k: u64| #[trigger] old(self)@.contains_key(k) ==> e.0 <= k,
                None => old(self)@.dom().len() == 0,
            },
            final(self)@.dom().len() <= old(self)@.dom().len(),
            r is Some ==> final(self)@.dom().len() < old(self)@.dom().len(),
    {
        proof {
            use_type_invariant(&*self);
            self.lemma_ordered();
        }
        if self.entries.len() == 0 {
            None
        } else {
            let k = self.entries[0].0;
            proof {
                assert(self.key_seq()[0] == k);
                assert forall|j: u64| #[trigger] self@.contains_key(j) implies k <= j by {
                    let i = choose|i: int| 0 <= i < self.key_seq().len() && self.key_seq()[i] == j;
                    if i > 0 {
                        assert(self.key_seq()[0] < self.key_seq()[i]);
                    }
                }
            }
            let r = self.remove(k);
            proof {
                use_type_invariant(&*self);
                self.lemma_ordered();
                assert(self@.dom() =~= old(self)@.dom().remove(k));
            }
            match r {
                Some(v) => Some((k, v)),
                None => None,
            }
        }
    }
}


/// The largest key of `m`.
pub open spec fn max_key_of<V>(m: Map<u64, V>) -> u64 {
    choose|n: u64| m.contains_key(n) && forall|k: u64| #[trigger] m.contains_key(k) ==> k <= n
}

/// A set of keys within `[lo, hi]` has at most `hi - lo + 1` of them.
pub proof fn lemma_bounded_keys(s: Set<u64>, lo: int, hi: int)
    requires
        s.finite(),
        forall|k: u64| #[trigger] s.contains(k) ==> lo <= k <= hi,
    ensures
        s.len() <= if hi >= lo { hi - lo + 1 } else { 0 },
    decreases (if hi >= lo { hi - lo + 1 } else { 0 }),
{
    if hi < lo {
        if s.len() > 0 {
            let k = s.choose();
            assert(s.contains(k));
        }
    } else {
        if 0 <= hi <= u64::MAX {
            let top = hi as u64;
            let r = s.remove(top);
            lemma_bounded_keys(r, lo, hi - 1);
        } else {
            lemma_bounded_keys(s, lo, hi - 1);
        }
    }
}

impl<V> OrderedMap<V> {
    /// Keeps the keys that lie less than `buffer` below the largest key.
    pub fn retain_window(&mut self, buffer: u64)
        ensures
            final(self)@ == old(self)@.restrict(
                old(self)@.dom().filter(|k: u64| max_key_of(old(self)@) - k < buffer),
            ),
    {
        let ghost m0 = self@;
        match self.max_key() {
            None => {
                proof {
                    assert(m0.restrict(m0.dom().filter(|k: u64| max_key_of(m0) - k < buffer)) =~= m0);
                }
            },
            Some(n) => {
                proof {
                    let c = max_key_of(m0);
                    assert(m0.contains_key(c) && c <= n && n <= c);
                }
                if buffer == 0 {
                    *self = OrderedMap::new();
                    proof {
                        assert(self@ =~= m0.restrict(m0.dom().filter(|k: u64| max_key_of(m0) - k < buffer)));
                    }
                } else {
                    let min = if n >= buffer - 1 {
                        n - (buffer - 1)
                    } else {
                        0
                    };
                    self.retain_from(min);
                    proof {
                        assert(self@ =~= m0.restrict(m0.dom().filter(|k: u64| max_key_of(m0) - k < buffer)));
                    }
                }
            },
        }
    }
}


impl<V> OrderedMap<V> {
    /// The map holds finitely many keys.
    pub proof fn lemma_finite(&self)
        ensures
            self@.dom().finite(),
    {
        let ks = self.entries@.map_values(|e: (u64, V)| e.0);
        assert(self@.dom() =~= ks.to_set()) by {
            assert forall|k: u64| self@.dom().contains(k) <==> ks.to_set().contains(k) by {
                if self@.dom().contains(k) {
                    let i = choose|i: int| 0 <= i < self.entries@.len() && self.entries@[i].0 == k;
                    assert(ks[i] == k);
                }
                if ks.to_set().contains(k) {
                    let i = choose|i: int| 0 <= i < ks.len() && ks[i] == k;
                    assert(self.entries@[i].0 == k);
                }
            }
        }
        vstd::seq_lib::seq_to_set_is_finite(ks);
    }
}


impl<V> OrderedMap<V> {
    /// The smallest key, if any.
    pub fn min_key(&self) -> (r: Option<u64>)
        ensures
            match r {
                Some(m) => self@.contains_key(m) && forall|k: u64| #[trigger]
                    self@.contains_key(k) ==> m <= k,
                None => self@.dom() == Set::<u64>::empty(),
            },
    {
        proof {
            use_type_invariant(self);
            self.lemma_ordered();
        }
        if self.entries.len() == 0 {
            proof {
                assert(self@.dom() =~= Set::<u64>::empty());
            }
            None
        } else {
            let m = self.entries[0].0;
            proof {
                assert(self.key_seq()[0] == m);
                assert forall|k: u64| #[trigger] self@.contains_key(k) implies m <= k by {
                    let i = choose|i: int| 0 <= i < self.key_seq().len() && self.key_seq()[i] == k;
                    if i > 0 {
                        assert(self.key_seq()[0] < self.key_seq()[i]);
                    }
                }
            }
            Some(m)
        }
    }
}

} // verus!
