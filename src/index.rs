//! The in-memory index: for each key, where its latest value lies in the log.
use vstd::prelude::*;
use crate::entry::push_bytes;

verus! {

/// Whether two byte strings are equal.
pub fn bytes_eq(a: &[u8], b: &[u8]) -> (r: bool)
    ensures
        r == (a@ == b@),
{
    if a.len() != b.len() {
        return false;
    }
    let mut i: usize = 0;
    while i < a.len()
        invariant
            a@.len() == b@.len(),
            i <= a@.len(),
            forall|j: int| 0 <= j < i ==> a@[j] == b@[j],
        decreases a@.len() - i,
    {
        if a[i] != b[i] {
            return false;
        }
        i = i + 1;
    }
    assert(a@ =~= b@);
    true
}

/// A map from keys to `(value offset, value length)`, kept as a list of
/// slots with pairwise distinct keys.
pub struct KeyIndex {
    slots: Vec<(Vec<u8>, u64, u32)>,
}

impl View for KeyIndex {
    type V = Map<Seq<u8>, (int, int)>;

    closed spec fn view(&self) -> Map<Seq<u8>, (int, int)> {
        Map::new(
            |k: Seq<u8>| exists|i: int| 0 <= i < self.slots@.len() && #[trigger] self.slots@[i].0@ == k,
            |k: Seq<u8>|
                {
                    let i = choose|i: int| 0 <= i < self.slots@.len() && #[trigger] self.slots@[i].0@ == k;
                    (self.slots@[i].1 as int, self.slots@[i].2 as int)
                },
        )
    }
}

impl KeyIndex {
    /// No two slots hold the same key.
    pub closed spec fn wf(&self) -> bool {
        forall|i: int, j: int|
            0 <= i < self.slots@.len() && 0 <= j < self.slots@.len() && i != j
                ==> #[trigger] self.slots@[i].0@ != #[trigger] self.slots@[j].0@
    }

    /// The keys of the slots, in slot order.
    pub closed spec fn keys(&self) -> Seq<Seq<u8>> {
        self.slots@.map_values(|s: (Vec<u8>, u64, u32)| s.0@)
    }

    proof fn lemma_lookup(&self, i: int)
        requires
            self.wf(),
            0 <= i < self.slots@.len(),
        ensures
            self@.contains_key(self.slots@[i].0@),
            self@[self.slots@[i].0@] == (self.slots@[i].1 as int, self.slots@[i].2 as int),
    {
        let k = self.slots@[i].0@;
        assert(self@.contains_key(k));
        let j = choose|j: int| 0 <= j < self.slots@.len() && #[trigger] self.slots@[j].0@ == k;
        assert(j == i);
    }

    /// The listing of the slots matches the map: its keys are distinct and
    /// are exactly the keys of the map.
    pub proof fn lemma_keys(&self)
        requires
            self.wf(),
        ensures
            self.keys().len() == self@.dom().len(),
            self.keys().no_duplicates(),
            self.keys().to_set() == self@.dom(),
            forall|i: int| 0 <= i < self.keys().len() ==> #[trigger] self.keys()[i] == self.slot_key(i),
    {
        let ks = self.keys();
        assert forall|i: int, j: int| 0 <= i < ks.len() && 0 <= j < ks.len() && i != j implies ks[i]
            != ks[j] by {
            assert(ks[i] == self.slots@[i].0@);
            assert(ks[j] == self.slots@[j].0@);
        }
        assert(ks.no_duplicates());
        assert forall|k: Seq<u8>| ks.to_set().contains(k) <==> self@.dom().contains(k) by {
            if ks.to_set().contains(k) {
                let i = choose|i: int| 0 <= i < ks.len() && ks[i] == k;
                assert(self.slots@[i].0@ == k);
            }
            if self@.dom().contains(k) {
                let i = choose|i: int| 0 <= i < self.slots@.len() && #[trigger] self.slots@[i].0@ == k;
                assert(ks[i] == k);
                assert(ks.contains(k));
            }
        }
        assert(ks.to_set() =~= self@.dom());
        ks.unique_seq_to_set();
    }

    /// The key of slot `i`.
    pub closed spec fn slot_key(&self, i: int) -> Seq<u8> {
        self.slots@[i].0@
    }

    /// An empty index.
    pub fn new() -> (r: KeyIndex)
        ensures
            r.wf(),
            r@ == Map::<Seq<u8>, (int, int)>::empty(),
    {
        let r = KeyIndex { slots: Vec::new() };
        assert(r@ =~= Map::<Seq<u8>, (int, int)>::empty());
        r
    }

    /// Number of keys in the index.
    pub fn len(&self) -> (r: usize)
        requires
            self.wf(),
        ensures
            r == self@.dom().len(),
            r == self.keys().len(),
    {
        proof {
            self.lemma_keys();
        }
        self.slots.len()
    }

    /// The slot of `key`, if any.
    fn find(&self, key: &[u8]) -> (r: Option<usize>)
        requires
            self.wf(),
        ensures
            r is None ==> !self@.contains_key(key@),
            r matches Some(i) ==> i < self.slots@.len() && self.slots@[i as int].0@ == key@,
    {
        let mut i: usize = 0;
        while i < self.slots.len()
            invariant
                i <= self.slots@.len(),
                forall|j: int| 0 <= j < i ==> #[trigger] self.slots@[j].0@ != key@,
            decreases self.slots@.len() - i,
        {
            if bytes_eq(self.slots[i].0.as_slice(), key) {
                return Some(i);
            }
            i = i + 1;
        }
        None
    }

    /// Where the value of `key` lies, if the key is present.
    pub fn get(&self, key: &[u8]) -> (r: Option<(u64, u32)>)
        requires
            self.wf(),
        ensures
            r is None <==> !self@.contains_key(key@),
            r matches Some(p) ==> self@[key@] == (p.0 as int, p.1 as int),
    {
        match self.find(key) {
            None => None,
            Some(i) => {
                proof {
                    self.lemma_lookup(i as int);
                }
                Some((self.slots[i].1, self.slots[i].2))
            },
        }
    }

    /// A copy of the slot at position `i`: key, value offset, value length.
    pub fn slot(&self, i: usize) -> (r: (Vec<u8>, u64, u32))
        requires
            self.wf(),
            i < self.keys().len(),
        ensures
            r.0@ == self.keys()[i as int],
            self@.contains_key(r.0@),
            self@[r.0@] == (r.1 as int, r.2 as int),
    {
        proof {
            self.lemma_lookup(i as int);
        }
        let mut key: Vec<u8> = Vec::new();
        push_bytes(&mut key, self.slots[i].0.as_slice());
        assert(key@ =~= self.slots@[i as int].0@);
        (key, self.slots[i].1, self.slots[i].2)
    }

    /// Removes `key`; nothing changes if it is absent.
    pub fn remove(&mut self, key: &[u8])
        requires
            old(self).wf(),
        ensures
            final(self).wf(),
            final(self)@ == old(self)@.remove(key@),
    {
        match self.find(key) {
            None => {
                assert(self@ =~= old(self)@.remove(key@));
            },
            Some(i) => {
                let ghost o = self.slots@;
                self.slots.remove(i);
                let ghost n = self.slots@;
                assert(forall|j: int| 0 <= j < n.len() ==> #[trigger] n[j] == if j < i {
                    o[j]
                } else {
                    o[j + 1]
                });
                assert forall|a: int, b: int|
                    0 <= a < n.len() && 0 <= b < n.len() && a != b implies #[trigger] n[a].0@
                    != #[trigger] n[b].0@ by {
                    let a1 = if a < i { a } else { a + 1 };
                    let b1 = if b < i { b } else { b + 1 };
                    assert(n[a] == o[a1] && n[b] == o[b1]);
                }
                assert forall|k: Seq<u8>|
                    #![trigger self@.dom().contains(k)]
                    #![trigger self@[k]]
                    #![trigger old(self)@.dom().contains(k)]
                    self@.contains_key(k) == old(self)@.remove(key@).contains_key(k) && (
                    self@.contains_key(k) ==> self@[k] == old(self)@[k]) by {
                    if self@.contains_key(k) {
                        let j = choose|j: int| 0 <= j < n.len() && #[trigger] n[j].0@ == k;
                        let j1 = if j < i { j } else { j + 1 };
                        assert(o[j1].0@ == k);
                        assert(j1 != i);
                        self.lemma_lookup(j);
                        old(self).lemma_lookup(j1);
                    }
                    if old(self)@.remove(key@).contains_key(k) {
                        let j1 = choose|j: int| 0 <= j < o.len() && #[trigger] o[j].0@ == k;
                        assert(j1 != i);
                        let j = if j1 < i { j1 } else { j1 - 1 };
                        assert(n[j].0@ == k);
                    }
                }
                assert(self@ =~= old(self)@.remove(key@));
            },
        }
    }

    /// Sets the location of `key`, replacing any earlier one.
    pub fn insert(&mut self, key: &[u8], offset: u64, len: u32)
        requires
            old(self).wf(),
        ensures
            final(self).wf(),
            final(self)@ == old(self)@.insert(key@, (offset as int, len as int)),
    {
        self.remove(key);
        let ghost o = self.slots@;
        let ghost m = self@;
        let mut k: Vec<u8> = Vec::new();
        push_bytes(&mut k, key);
        assert(k@ =~= key@);
        self.slots.push((k, offset, len));
        let ghost n = self.slots@;
        assert(forall|j: int| 0 <= j < o.len() ==> #[trigger] n[j] == o[j]);
        assert(forall|j: int| 0 <= j < o.len() ==> #[trigger] o[j].0@ != key@) by {
            assert forall|j: int| 0 <= j < o.len() implies #[trigger] o[j].0@ != key@ by {
                if o[j].0@ == key@ {
                    assert(m.contains_key(key@));
                }
            }
        }
        assert forall|k2: Seq<u8>|
            #![trigger self@.dom().contains(k2)]
            #![trigger self@[k2]]
            #![trigger m.dom().contains(k2)]
            self@.contains_key(k2) == m.insert(key@, (offset as int, len as int)).contains_key(k2)
                && (self@.contains_key(k2) ==> self@[k2] == m.insert(
                key@,
                (offset as int, len as int),
            )[k2]) by {
            if k2 == key@ {
                self.lemma_lookup(o.len() as int);
            } else {
                if self@.contains_key(k2) {
                    let j = choose|j: int| 0 <= j < n.len() && #[trigger] n[j].0@ == k2;
                    assert(j < o.len());
                    assert(o[j].0@ == k2);
                    self.lemma_lookup(j);
                }
                if m.contains_key(k2) {
                    let j = choose|j: int| 0 <= j < o.len() && #[trigger] o[j].0@ == k2;
                    assert(n[j].0@ == k2);
                }
            }
        }
        assert(self@ =~= old(self)@.insert(key@, (offset as int, len as int)));
    }
}

} // verus!
