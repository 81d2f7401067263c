//! A keyed store of cache entries: at most one value per (name, type) key.
use vstd::prelude::*;

verus! {

/// A cache key: a lower-cased name and a numeric record type.
#[derive(Debug, Clone)]
pub struct CacheKey {
    pub name: String,
    pub qtype: u16,
}

/// The abstract form of a key.
pub open spec fn key_view(k: CacheKey) -> (Seq<char>, u16) {
    (k.name@, k.qtype)
}

/// Entries with unique keys, in insertion order.
pub struct KeyedStore<V> {
    slots: Vec<(CacheKey, V)>,
}

impl<V> KeyedStore<V> {
    /// The key of slot `i`.
    pub closed spec fn key_at(&self, i: int) -> (Seq<char>, u16) {
        key_view(self.slots@[i].0)
    }

    /// The number of slots.
    pub closed spec fn len_spec(&self) -> nat {
        self.slots@.len()
    }

    /// No two slots share a key.
    pub closed spec fn wf(&self) -> bool {
        forall|i: int, j: int|
            0 <= i < j < self.slots@.len() ==> key_view(#[trigger] self.slots@[i].0) != key_view(
                #[trigger] self.slots@[j].0,
            )
    }

    /// The value stored under each key.
    pub closed spec fn view(&self) -> Map<(Seq<char>, u16), V> {
        Map::new(
            |k: (Seq<char>, u16)| exists|i: int| 0 <= i < self.slots@.len() && key_view(self.slots@[i].0) == k,
            |k: (Seq<char>, u16)|
                self.slots@[choose|i: int| 0 <= i < self.slots@.len() && key_view(self.slots@[i].0) == k].1,
        )
    }

    proof fn lemma_view_at(&self, i: int)
        requires
            self.wf(),
            0 <= i < self.slots@.len(),
        ensures
            self@.contains_key(key_view(self.slots@[i].0)),
            self@[key_view(self.slots@[i].0)] == self.slots@[i].1,
    {
        let k = key_view(self.slots@[i].0);
        assert(exists|j: int| 0 <= j < self.slots@.len() && key_view(self.slots@[j].0) == k);
        let c = choose|j: int| 0 <= j < self.slots@.len() && key_view(self.slots@[j].0) == k;
        if c != i {
            if c < i {
                assert(key_view(self.slots@[c].0) != key_view(self.slots@[i].0));
            } else {
                assert(key_view(self.slots@[i].0) != key_view(self.slots@[c].0));
            }
        }
    }

    pub fn new() -> (r: KeyedStore<V>)
        ensures
            r.wf(),
            r@ == Map::<(Seq<char>, u16), V>::empty(),
            r.len_spec() == 0,
    {
        let r = KeyedStore { slots: Vec::new() };
        assert(r@ =~= Map::<(Seq<char>, u16), V>::empty());
        r
    }

    pub fn len(&self) -> (r: usize)
        ensures
            r == self.len_spec(),
    {
        self.slots.len()
    }

    /// The slot that holds key `(name, qtype)`, if any.
    pub fn find(&self, name: &String, qtype: u16) -> (r: Option<usize>)
        requires
            self.wf(),
        ensures
            match r {
                Some(i) => i < self.len_spec() && self.key_at(i as int) == (name@, qtype)
                    && self@.contains_key((name@, qtype)),
                None => !self@.contains_key((name@, qtype)),
            },
    {
        let mut i: usize = 0;
        while i < self.slots.len()
            invariant
                self.wf(),
                i <= self.slots@.len(),
                forall|j: int| 0 <= j < i ==> key_view(#[trigger] self.slots@[j].0) != (name@, qtype),
            decreases self.slots@.len() - i,
        {
            if self.slots[i].0.qtype == qtype && self.slots[i].0.name == *name {
                proof {
                    self.lemma_view_at(i as int);
                }
                return Some(i);
            }
            i = i + 1;
        }
        None
    }

    /// The value in slot `i`.
    pub fn value_at(&self, i: usize) -> (r: &V)
        requires
            self.wf(),
            i < self.len_spec(),
        ensures
            *r == self@[self.key_at(i as int)],
            self@.contains_key(self.key_at(i as int)),
    {
        proof {
            self.lemma_view_at(i as int);
        }
        &self.slots[i].1
    }

    /// The key in slot `i`.
    pub fn key_ref(&self, i: usize) -> (r: &CacheKey)
        requires
            i < self.len_spec(),
        ensures
            key_view(*r) == self.key_at(i as int),
    {
        &self.slots[i].0
    }

    /// Replaces the value in slot `i`, handing back the value it held.
    pub fn replace_value(&mut self, i: usize, v: V) -> (r: V)
        requires
            old(self).wf(),
            i < old(self).len_spec(),
        ensures
            r == old(self)@[old(self).key_at(i as int)],
            final(self).wf(),
            final(self).len_spec() == old(self).len_spec(),
            final(self)@ == old(self)@.insert(old(self).key_at(i as int), v),
            forall|j: int| 0 <= j < final(self).len_spec() ==> final(self).key_at(j) == old(self).key_at(j),
    {
        let ghost k = self.key_at(i as int);
        proof {
            old(self).lemma_view_at(i as int);
        }
        let (key, prev) = self.slots.remove(i);
        self.slots.insert(i, (key, v));
        proof {
            assert(self.slots@ =~= old(self).slots@.update(i as int, (old(self).slots@[i as int].0, v)));
            assert forall|j: int| 0 <= j < self.slots@.len() implies self.key_at(j) == old(self).key_at(j) by {
            }
            self.lemma_view_at(i as int);
            assert forall|kk: (Seq<char>, u16)| #[trigger] self@.contains_key(kk) == old(self)@.insert(k, v).contains_key(kk) by {
                if self@.contains_key(kk) {
                    let c = choose|j: int| 0 <= j < self.slots@.len() && key_view(self.slots@[j].0) == kk;
                    if kk != k {
                        assert(key_view(old(self).slots@[c].0) == kk);
                    }
                }
                if old(self)@.contains_key(kk) {
                    let c = choose|j: int| 0 <= j < old(self).slots@.len() && key_view(old(self).slots@[j].0) == kk;
                    assert(key_view(self.slots@[c].0) == kk);
                }
            }
            assert forall|kk: (Seq<char>, u16)| #[trigger] self@.contains_key(kk) implies self@[kk] == old(self)@.insert(k, v)[kk] by {
                if kk != k {
                    let c = choose|j: int| 0 <= j < self.slots@.len() && key_view(self.slots@[j].0) == kk;
                    self.lemma_view_at(c);
                    old(self).lemma_view_at(c);
                }
            }
            assert(self@ =~= old(self)@.insert(k, v));
        }
        prev
    }

    /// Replaces the value in slot `i`.
    pub fn set_value(&mut self, i: usize, v: V)
        requires
            old(self).wf(),
            i < old(self).len_spec(),
        ensures
            final(self).wf(),
            final(self).len_spec() == old(self).len_spec(),
            final(self)@ == old(self)@.insert(old(self).key_at(i as int), v),
            forall|j: int| 0 <= j < final(self).len_spec() ==> final(self).key_at(j) == old(self).key_at(j),
    {
        let _ = self.replace_value(i, v);
    }

    /// Adds a value under a key that the store does not hold.
    pub fn push_new(&mut self, key: CacheKey, v: V)
        requires
            old(self).wf(),
            !old(self)@.contains_key(key_view(key)),
        ensures
            final(self).wf(),
            final(self).len_spec() == old(self).len_spec() + 1,
            final(self)@ == old(self)@.insert(key_view(key), v),
    {
        let ghost k = key_view(key);
        proof {
            assert forall|j: int| 0 <= j < old(self).slots@.len() implies key_view(old(self).slots@[j].0) != k by {
                old(self).lemma_view_at(j);
            }
        }
        self.slots.push((key, v));
        proof {
            let n = old(self).slots@.len() as int;
            self.lemma_view_at(n);
            assert forall|kk: (Seq<char>, u16)| #[trigger] self@.contains_key(kk) == old(self)@.insert(k, v).contains_key(kk) by {
                if self@.contains_key(kk) && kk != k {
                    let c = choose|j: int| 0 <= j < self.slots@.len() && key_view(self.slots@[j].0) == kk;
                    assert(key_view(old(self).slots@[c].0) == kk);
                }
                if old(self)@.contains_key(kk) {
                    let c = choose|j: int| 0 <= j < old(self).slots@.len() && key_view(old(self).slots@[j].0) == kk;
                    assert(key_view(self.slots@[c].0) == kk);
                }
            }
            assert forall|kk: (Seq<char>, u16)| #[trigger] self@.contains_key(kk) implies self@[kk] == old(self)@.insert(k, v)[kk] by {
                if kk != k {
                    let c = choose|j: int| 0 <= j < self.slots@.len() && key_view(self.slots@[j].0) == kk;
                    self.lemma_view_at(c);
                    old(self).lemma_view_at(c);
                }
            }
            assert(self@ =~= old(self)@.insert(k, v));
        }
    }

    /// Removes slot `i`.
    pub fn remove_at(&mut self, i: usize)
        requires
            old(self).wf(),
            i < old(self).len_spec(),
        ensures
            final(self).wf(),
            final(self).len_spec() == old(self).len_spec() - 1,
            final(self)@ == old(self)@.remove(old(self).key_at(i as int)),
    {
        let ghost k = self.key_at(i as int);
        self.slots.remove(i);
        proof {
            old(self).lemma_view_at(i as int);
            assert forall|kk: (Seq<char>, u16)| #[trigger] self@.contains_key(kk) == old(self)@.remove(k).contains_key(kk) by {
                if self@.contains_key(kk) {
                    let c = choose|j: int| 0 <= j < self.slots@.len() && key_view(self.slots@[j].0) == kk;
                    if c < i {
                        assert(self.slots@[c] == old(self).slots@[c]);
                        assert(key_view(old(self).slots@[c].0) != k);
                        old(self).lemma_view_at(c);
                    } else {
                        assert(self.slots@[c] == old(self).slots@[c + 1]);
                        assert(key_view(old(self).slots@[i as int].0) != key_view(old(self).slots@[c + 1].0));
                        old(self).lemma_view_at(c + 1);
                    }
                }
                if old(self)@.remove(k).contains_key(kk) {
                    let c = choose|j: int| 0 <= j < old(self).slots@.len() && key_view(old(self).slots@[j].0) == kk;
                    if c < i {
                        assert(key_view(self.slots@[c].0) == kk);
                    } else if c > i {
                        assert(key_view(self.slots@[c - 1].0) == kk);
                    }
                }
            }
            assert forall|kk: (Seq<char>, u16)| #[trigger] self@.contains_key(kk) implies self@[kk] == old(self)@.remove(k)[kk] by {
                let c = choose|j: int| 0 <= j < self.slots@.len() && key_view(self.slots@[j].0) == kk;
                self.lemma_view_at(c);
                if c < i {
                    old(self).lemma_view_at(c);
                } else {
                    assert(self.slots@[c] == old(self).slots@[c + 1]);
                    old(self).lemma_view_at(c + 1);
                }
            }
            assert(self@ =~= old(self)@.remove(k));
        }
    }
}

impl<V> KeyedStore<V> {
    /// Each key of the store sits in some slot.
    pub proof fn lemma_key_has_slot(&self, k: (Seq<char>, u16))
        requires
            self.wf(),
            self@.contains_key(k),
        ensures
            exists|i: int| 0 <= i < self.len_spec() && #[trigger] self.key_at(i) == k,
    {
        let c = choose|j: int| 0 <= j < self.slots@.len() && key_view(self.slots@[j].0) == k;
        assert(self.key_at(c) == k);
    }

    /// The key of each slot is a key of the store.
    pub proof fn lemma_slot_has_key(&self, i: int)
        requires
            self.wf(),
            0 <= i < self.len_spec(),
        ensures
            self@.contains_key(self.key_at(i)),
    {
        self.lemma_view_at(i);
    }
}

impl<V> KeyedStore<V> {
    /// Each slot holds its own key, so the slots count the keys.
    pub proof fn lemma_len_is_size(&self)
        requires
            self.wf(),
        ensures
            self@.len() == self.len_spec(),
            self@.dom().finite(),
    {
        let keys = Seq::new(self.slots@.len(), |i: int| key_view(self.slots@[i].0));
        assert(keys.no_duplicates()) by {
            assert forall|i: int, j: int| 0 <= i < keys.len() && 0 <= j < keys.len() && i != j implies keys[i] != keys[j] by {
                if i < j {
                    assert(key_view(self.slots@[i].0) != key_view(self.slots@[j].0));
                } else {
                    assert(key_view(self.slots@[j].0) != key_view(self.slots@[i].0));
                }
            }
        }
        assert(self@.dom() =~= keys.to_set()) by {
            assert forall|k: (Seq<char>, u16)| self@.dom().contains(k) <==> keys.to_set().contains(k) by {
                if self@.dom().contains(k) {
                    let c = choose|j: int| 0 <= j < self.slots@.len() && key_view(self.slots@[j].0) == k;
                    assert(keys[c] == k);
                }
                if keys.to_set().contains(k) {
                    let c = choose|j: int| 0 <= j < keys.len() && keys[j] == k;
                    assert(key_view(self.slots@[c].0) == k);
                }
            }
        }
        keys.unique_seq_to_set();
    }
}

impl CacheKey {
    /// A copy of the key.
    pub fn clone_key(&self) -> (r: CacheKey)
        ensures
            key_view(r) == key_view(*self),
    {
        CacheKey { name: self.name.clone(), qtype: self.qtype }
    }
}

} // verus!
