//! The abstract state of a store, the effect of each operation on it, and
//! the laws that relate the operations.
use vstd::prelude::*;
use crate::entry::entry_bytes;
use crate::log::{
    index_of, locations_of, parse, lemma_parse_append, lemma_parse_within,
    lemma_locations_within, lemma_index_in_locations,
};

verus! {

/// A store as its log's bytes and its index from keys to
/// `(value offset, value length)`.
pub struct StoreState {
    pub image: Seq<u8>,
    pub index: Map<Seq<u8>, (int, int)>,
}

impl StoreState {
    /// A store with an empty log.
    pub open spec fn empty() -> StoreState {
        StoreState { image: Seq::empty(), index: Map::empty() }
    }

    /// The log parses, every key live in the log is in the index, and every
    /// key of the index points at the value of its last entry.
    pub open spec fn wf(self) -> bool {
        &&& parse(self.image) is Some
        &&& forall|k: Seq<u8>|
            #[trigger] index_of(parse(self.image).unwrap()).contains_key(k)
                ==> self.index.contains_key(k)
        &&& forall|k: Seq<u8>|
            #[trigger] self.index.contains_key(k) ==> locations_of(
                parse(self.image).unwrap(),
            ).contains_key(k) && self.index[k] == locations_of(parse(self.image).unwrap())[k]
    }

    /// No key of the index points at an empty value.
    pub open spec fn no_empty_values(self) -> bool {
        forall|k: Seq<u8>| #[trigger] self.index.contains_key(k) ==> self.index[k].1 > 0
    }

    /// What a lookup of `k` returns.
    pub open spec fn get(self, k: Seq<u8>) -> Option<Seq<u8>> {
        if self.index.contains_key(k) {
            Some(self.image.subrange(self.index[k].0, self.index[k].0 + self.index[k].1))
        } else {
            None
        }
    }

    /// The state after `set(k, v)`: the entry is appended and the index
    /// points at its value.
    pub open spec fn set(self, k: Seq<u8>, v: Seq<u8>) -> StoreState {
        StoreState {
            image: self.image + entry_bytes(k, v),
            index: self.index.insert(k, ((self.image.len() + 8 + k.len()) as int, v.len() as int)),
        }
    }

    /// The state after `delete(k)`: a tombstone is appended and the key
    /// leaves the index.
    pub open spec fn delete(self, k: Seq<u8>) -> StoreState {
        StoreState { image: self.image + entry_bytes(k, Seq::empty()), index: self.index.remove(k) }
    }

    /// The state of a store opened on the log `image`.
    pub open spec fn reopen(image: Seq<u8>) -> StoreState {
        StoreState { image, index: index_of(parse(image).unwrap()) }
    }

    /// The store that a merge builds: the current value of each of `keys`,
    /// in that order, written into an empty log.
    pub open spec fn rewrite(self, keys: Seq<Seq<u8>>) -> StoreState
        decreases keys.len(),
    {
        if keys.len() == 0 {
            StoreState::empty()
        } else {
            self.rewrite(keys.drop_last()).set(keys.last(), self.get(keys.last()).unwrap())
        }
    }

    /// The bytes of one entry for the current value of each of `keys`.
    pub open spec fn live_size(self, keys: Seq<Seq<u8>>) -> int
        decreases keys.len(),
    {
        if keys.len() == 0 {
            0
        } else {
            self.live_size(keys.drop_last()) + 8 + keys.last().len() + self.get(
                keys.last(),
            ).unwrap().len()
        }
    }
}

/// In a well-formed state every key and value length fits a `u32` and every
/// value lies within the log.
pub proof fn lemma_state_bounds(s: StoreState)
    requires
        s.wf(),
    ensures
        forall|k: Seq<u8>|
            #[trigger] s.index.contains_key(k) ==> k.len() <= u32::MAX && 0 <= s.index[k].0 && 0
                <= s.index[k].1 <= u32::MAX && s.index[k].0 + s.index[k].1 <= s.image.len(),
{
    let ms = parse(s.image).unwrap();
    lemma_parse_within(s.image, 0);
    lemma_locations_within(ms, s.image.len() as int);
}

/// The empty store is well formed.
pub proof fn lemma_empty_wf()
    ensures
        StoreState::empty().wf(),
        StoreState::empty().no_empty_values(),
{
    assert(parse(Seq::<u8>::empty()) == Some(Seq::<(Seq<u8>, int, int)>::empty()));
}

/// `set` keeps a store well formed, makes `k` read `v` and leaves every
/// other key as it was.
pub proof fn lemma_set(s: StoreState, k: Seq<u8>, v: Seq<u8>)
    requires
        s.wf(),
        k.len() <= u32::MAX,
        v.len() <= u32::MAX,
    ensures
        s.set(k, v).wf(),
        s.set(k, v).get(k) == Some(v),
        forall|k2: Seq<u8>| k2 != k ==> #[trigger] s.set(k, v).get(k2) == s.get(k2),
        s.no_empty_values() && v.len() > 0 ==> s.set(k, v).no_empty_values(),
{
    let t = s.set(k, v);
    let ms = parse(s.image).unwrap();
    lemma_state_bounds(s);
    lemma_parse_append(s.image, 0, k, v);
    let ms2 = parse(t.image).unwrap();
    assert(ms2.drop_last() =~= ms);
    assert(index_of(ms2) == if v.len() > 0 {
        index_of(ms).insert(k, ((s.image.len() + 8 + k.len()) as int, v.len() as int))
    } else {
        index_of(ms).remove(k)
    });
    assert(locations_of(ms2) == locations_of(ms).insert(
        k,
        ((s.image.len() + 8 + k.len()) as int, v.len() as int),
    ));
    assert forall|k2: Seq<u8>| #[trigger] index_of(ms2).contains_key(k2) implies t.index.contains_key(k2) by {
        if k2 != k {
            assert(index_of(ms).contains_key(k2));
        }
    }
    let vo = (s.image.len() + 8 + k.len()) as int;
    assert(t.image.subrange(vo, vo + v.len()) =~= v);
    assert forall|k2: Seq<u8>| k2 != k implies #[trigger] t.get(k2) == s.get(k2) by {
        if s.index.contains_key(k2) {
            let o = s.index[k2].0;
            let l = s.index[k2].1;
            assert(t.image.subrange(o, o + l) =~= s.image.subrange(o, o + l));
        }
    }
}

/// `delete` keeps a store well formed, makes `k` absent and leaves every
/// other key as it was.
pub proof fn lemma_delete(s: StoreState, k: Seq<u8>)
    requires
        s.wf(),
        k.len() <= u32::MAX,
    ensures
        s.delete(k).wf(),
        s.delete(k).get(k) is None,
        forall|k2: Seq<u8>| k2 != k ==> #[trigger] s.delete(k).get(k2) == s.get(k2),
        s.no_empty_values() ==> s.delete(k).no_empty_values(),
{
    let t = s.delete(k);
    let ms = parse(s.image).unwrap();
    lemma_state_bounds(s);
    lemma_parse_append(s.image, 0, k, Seq::empty());
    let ms2 = parse(t.image).unwrap();
    assert(ms2.drop_last() =~= ms);
    assert(index_of(ms2) == index_of(ms).remove(k));
    assert(locations_of(ms2) == locations_of(ms).insert(
        k,
        ((s.image.len() + 8 + k.len()) as int, 0int),
    ));
    assert forall|k2: Seq<u8>| #[trigger] index_of(ms2).contains_key(k2) implies t.index.contains_key(k2) by {
        assert(index_of(ms).contains_key(k2));
    }
    assert forall|k2: Seq<u8>| k2 != k implies #[trigger] t.get(k2) == s.get(k2) by {
        if s.index.contains_key(k2) {
            let o = s.index[k2].0;
            let l = s.index[k2].1;
            assert(t.image.subrange(o, o + l) =~= s.image.subrange(o, o + l));
        }
    }
}

} // verus!
