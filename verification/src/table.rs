//! A small keyed table: entries in insertion order, no key twice, viewed as a
//! finite map from key identity to value.
use vstd::prelude::*;

verus! {

/// A key whose identity is its view.
pub trait Ident: View + Sized {
    /// Whether the two keys are the same identity.
    fn same(&self, other: &Self) -> (r: bool)
        ensures
            r == (self@ == other@),
    ;

    /// A copy of the key.
    fn duplicate(&self) -> (r: Self)
        ensures
            r@ == self@,
    ;
}

impl Ident for String {
    fn same(&self, other: &Self) -> (r: bool) {
        *self == *other
    }

    fn duplicate(&self) -> (r: Self) {
        self.clone()
    }
}

/// The entries' keys by identity, with their values.
pub open spec fn pairs_view<K: View, V>(s: Seq<(K, V)>) -> Seq<(K::V, V)> {
    Seq::new(s.len(), |i: int| (s[i].0@, s[i].1))
}

/// The map that inserting the pairs in order builds.
pub open spec fn table_map<KV, V>(s: Seq<(KV, V)>) -> Map<KV, V>
    decreases s.len(),
{
    if s.len() == 0 {
        Map::empty()
    } else {
        table_map(s.drop_last()).insert(s.last().0, s.last().1)
    }
}

/// No key occurs twice.
pub open spec fn distinct_keys<KV, V>(s: Seq<(KV, V)>) -> bool {
    forall|a: int, b: int| 0 <= a < b < s.len() ==> s[a].0 != s[b].0
}

/// With distinct keys, the map holds exactly the pairs.
pub proof fn lemma_table_map<KV, V>(s: Seq<(KV, V)>)
    requires
        distinct_keys(s),
    ensures
        forall|k: KV| #[trigger]
            table_map(s).contains_key(k) <==> exists|i: int| 0 <= i < s.len() && s[i].0 == k,
        forall|i: int| 0 <= i < s.len() ==> #[trigger] table_map(s)[s[i].0] == s[i].1,
        table_map(s).dom().finite(),
        table_map(s).dom().len() == s.len(),
    decreases s.len(),
{
    if s.len() > 0 {
        let pre = s.drop_last();
        assert(distinct_keys(pre));
        lemma_table_map(pre);
        let last = s.last();
        assert(!table_map(pre).contains_key(last.0)) by {
            if table_map(pre).contains_key(last.0) {
                let i = choose|i: int| 0 <= i < pre.len() && pre[i].0 == last.0;
                assert(s[i].0 == s[s.len() - 1].0);
            }
        }
        assert forall|k: KV| #[trigger]
            table_map(s).contains_key(k) <==> exists|i: int| 0 <= i < s.len() && s[i].0 == k by {
            if table_map(s).contains_key(k) && k != last.0 {
                let i = choose|i: int| 0 <= i < pre.len() && pre[i].0 == k;
                assert(s[i].0 == k);
            }
            if exists|i: int| 0 <= i < s.len() && s[i].0 == k {
                let i = choose|i: int| 0 <= i < s.len() && s[i].0 == k;
                if i < s.len() - 1 {
                    assert(pre[i].0 == k);
                }
            }
        }
        assert forall|i: int| 0 <= i < s.len() implies #[trigger] table_map(s)[s[i].0] == s[i].1 by {
            if i < s.len() - 1 {
                assert(pre[i] == s[i]);
                assert(s[i].0 != last.0);
            }
        }
    }
}

/// A table of values keyed by identity, each key at most once.
pub struct KeyedTable<K: Ident, V: Copy> {
    entries: Vec<(K, V)>,
}

impl<K: Ident, V: Copy> KeyedTable<K, V> {
    /// The entries by key identity, in insertion order.
    pub closed spec fn pairs(&self) -> Seq<(K::V, V)> {
        pairs_view(self.entries@)
    }

    #[verifier::type_invariant]
    closed spec fn wf(&self) -> bool {
        distinct_keys(pairs_view(self.entries@))
    }

    /// The table as a map.
    pub closed spec fn map(&self) -> Map<K::V, V> {
        table_map(self.pairs())
    }

    /// The pairs hold each key once and build the map.
    proof fn lemma_pairs(&self)
        requires
            self.wf(),
        ensures
            distinct_keys(self.pairs()),
            forall|k: K::V| #[trigger]
                self.map().contains_key(k) <==> exists|i: int|
                    0 <= i < self.pairs().len() && self.pairs()[i].0 == k,
            forall|i: int|
                0 <= i < self.pairs().len() ==> #[trigger] self.map()[self.pairs()[i].0]
                    == self.pairs()[i].1,
            self.map().dom().finite(),
            self.map().dom().len() == self.pairs().len(),
    {
        lemma_table_map(self.pairs());
    }

    /// An empty table.
    pub fn new() -> (t: Self)
        ensures
            t.map() == Map::<K::V, V>::empty(),
            t.pairs().len() == 0,
    {
        let t = KeyedTable { entries: Vec::new() };
        assert(pairs_view(t.entries@) =~= Seq::<(K::V, V)>::empty());
        t
    }

    /// Position of `k`, or the number of entries.
    fn find(&self, k: &K) -> (r: usize)
        ensures
            r <= self.pairs().len(),
            r < self.pairs().len() ==> self.pairs()[r as int].0 == k@,
            r == self.pairs().len() ==> !self.map().contains_key(k@),
    {
        proof {
            use_type_invariant(self);
            self.lemma_pairs();
        }
        let mut i: usize = 0;
        while i < self.entries.len()
            invariant
                i <= self.entries.len(),
                forall|j: int| 0 <= j < i ==> self.pairs()[j].0 != k@,
            decreases self.entries.len() - i,
        {
            if self.entries[i].0.same(k) {
                return i;
            }
            i += 1;
        }
        i
    }

    /// The value stored for `k`.
    pub fn get(&self, k: &K) -> (r: Option<V>)
        ensures
            r == (if self.map().contains_key(k@) {
                Some(self.map()[k@])
            } else {
                None
            }),
    {
        proof {
            use_type_invariant(self);
            self.lemma_pairs();
        }
        let i = self.find(k);
        if i < self.entries.len() {
            Some(self.entries[i].1)
        } else {
            None
        }
    }

    /// Whether `k` has a value.
    pub fn contains_key(&self, k: &K) -> (r: bool)
        ensures
            r == self.map().contains_key(k@),
    {
        proof {
            use_type_invariant(self);
            self.lemma_pairs();
        }
        self.find(k) < self.entries.len()
    }

    /// Sets the value of `k`.
    pub fn insert(&mut self, k: K, v: V)
        ensures
            final(self).map() == old(self).map().insert(k@, v),
    {
        proof {
            use_type_invariant(&*self);
            self.lemma_pairs();
        }
        let i = self.find(&k);
        let ghost old_pairs = self.pairs();
        let mut tmp = KeyedTable { entries: Vec::new() };
        proof {
            assert(pairs_view(tmp.entries@) =~= Seq::<(K::V, V)>::empty());
        }
        std::mem::swap(self, &mut tmp);
        let mut es = tmp.entries;
        if i < es.len() {
            es.set(i, (k, v));
            proof {
                let np = pairs_view(es@);
                assert(np =~= old_pairs.update(i as int, (k@, v)));
                assert(distinct_keys(np)) by {
                    assert forall|a: int, b: int| 0 <= a < b < np.len() implies np[a].0 != np[b].0 by {
                        assert(old_pairs[a].0 == np[a].0);
                        assert(old_pairs[b].0 == np[b].0);
                    }
                }
                lemma_table_map(np);
                assert(table_map(np) =~= table_map(old_pairs).insert(k@, v)) by {
                    assert forall|key: K::V| #[trigger] table_map(np).contains_key(key)
                        == table_map(old_pairs).insert(k@, v).contains_key(key) by {
                        if exists|j: int| 0 <= j < np.len() && np[j].0 == key {
                            let j = choose|j: int| 0 <= j < np.len() && np[j].0 == key;
                            assert(old_pairs[j].0 == key);
                        }
                        if table_map(old_pairs).contains_key(key) {
                            let j = choose|j: int| 0 <= j < old_pairs.len() && old_pairs[j].0 == key;
                            assert(np[j].0 == key);
                        }
                    }
                    assert forall|key: K::V| #[trigger] table_map(np).contains_key(key) implies
                        table_map(np)[key] == table_map(old_pairs).insert(k@, v)[key] by {
                        let j = choose|j: int| 0 <= j < np.len() && np[j].0 == key;
                        if j != i {
                            assert(old_pairs[j] == np[j]);
                        }
                    }
                }
            }
        } else {
            es.push((k, v));
            proof {
                let np = pairs_view(es@);
                assert(np =~= old_pairs.push((k@, v)));
                assert(np.drop_last() == old_pairs);
                assert(distinct_keys(np)) by {
                    assert forall|a: int, b: int| 0 <= a < b < np.len() implies np[a].0 != np[b].0 by {
                        if b == np.len() - 1 {
                            assert(table_map(old_pairs).contains_key(np[a].0));
                        }
                    }
                }
            }
        }
        *self = KeyedTable { entries: es };
    }

    /// Number of keys.
    pub fn len(&self) -> (r: usize)
        ensures
            r == self.map().dom().len(),
    {
        proof {
            use_type_invariant(self);
            self.lemma_pairs();
        }
        self.entries.len()
    }

    /// Whether the table is empty.
    pub fn is_empty(&self) -> (r: bool)
        ensures
            r == (self.map().dom().len() == 0),
    {
        proof {
            use_type_invariant(self);
            self.lemma_pairs();
        }
        self.entries.len() == 0
    }

    /// The entries, in insertion order.
    pub fn entries(&self) -> (r: &Vec<(K, V)>)
        ensures
            pairs_view(r@) == self.pairs(),
            distinct_keys(self.pairs()),
            self.map() == table_map(self.pairs()),
    {
        proof {
            use_type_invariant(self);
        }
        &self.entries
    }
}

} // verus!
