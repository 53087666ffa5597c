//! Laws that relate the operations of the store.
use vstd::prelude::*;
use crate::entry::entry_bytes;
use crate::log::{index_of, locations_of, parse, lemma_parse_append, lemma_index_in_locations};
use crate::model::{StoreState, lemma_set, lemma_delete, lemma_state_bounds};

verus! {

/// A lookup right after `set(k, v)` returns `v`.
pub proof fn law_set_then_get(s: StoreState, k: Seq<u8>, v: Seq<u8>)
    requires
        s.wf(),
        k.len() <= u32::MAX,
        v.len() <= u32::MAX,
    ensures
        s.set(k, v).get(k) == Some(v),
{
    lemma_set(s, k, v);
}

/// After `set(k, v1)` and `set(k, v2)` a lookup returns `v2`; the log holds
/// both entries and the index points at the second value.
pub proof fn law_overwrite(s: StoreState, k: Seq<u8>, v1: Seq<u8>, v2: Seq<u8>)
    requires
        s.wf(),
        k.len() <= u32::MAX,
        v1.len() <= u32::MAX,
        v2.len() <= u32::MAX,
    ensures
        s.set(k, v1).set(k, v2).get(k) == Some(v2),
        s.set(k, v1).set(k, v2).image == s.image + entry_bytes(k, v1) + entry_bytes(k, v2),
        s.set(k, v1).set(k, v2).index[k] == (
            (s.image.len() + entry_bytes(k, v1).len() + 8 + k.len()) as int,
            v2.len() as int,
        ),
{
    lemma_set(s, k, v1);
    lemma_set(s.set(k, v1), k, v2);
}

/// After `set(k, v)` and `delete(k)` a lookup finds nothing; the log ends
/// with the tombstone and the key is not in the index.
pub proof fn law_delete(s: StoreState, k: Seq<u8>, v: Seq<u8>)
    requires
        s.wf(),
        k.len() <= u32::MAX,
        v.len() <= u32::MAX,
    ensures
        s.set(k, v).delete(k).get(k) is None,
        !s.set(k, v).delete(k).index.contains_key(k),
        s.set(k, v).delete(k).image == s.image + entry_bytes(k, v) + entry_bytes(k, Seq::empty()),
{
    lemma_set(s, k, v);
    lemma_delete(s.set(k, v), k);
}

/// Reopening a store on its own log gives back the same index, so every
/// lookup returns what it returned before.  A key whose live value is
/// empty is the exception: its entry is written as a tombstone, so the
/// state must have none.
pub proof fn law_reopen(s: StoreState)
    requires
        s.wf(),
        s.no_empty_values(),
    ensures
        parse(s.image) is Some,
        StoreState::reopen(s.image).wf(),
        StoreState::reopen(s.image) == s,
        forall|k: Seq<u8>| #[trigger] StoreState::reopen(s.image).get(k) == s.get(k),
{
    let ms = parse(s.image).unwrap();
    lemma_index_in_locations(ms);
    assert(index_of(ms) =~= s.index);
}

/// Entries are applied in file order: a tombstone followed by a `set` of
/// the same key leaves the key live once the log is scanned again.
pub proof fn law_tombstone_then_set(s: StoreState, k: Seq<u8>, v: Seq<u8>)
    requires
        s.wf(),
        k.len() <= u32::MAX,
        0 < v.len() <= u32::MAX,
    ensures
        StoreState::reopen(s.delete(k).set(k, v).image).get(k) == Some(v),
{
    let d = s.delete(k);
    let t = d.set(k, v);
    lemma_delete(s, k);
    lemma_set(d, k, v);
    lemma_parse_append(d.image, 0, k, v);
    let ms = parse(d.image).unwrap();
    let ms2 = parse(t.image).unwrap();
    assert(ms2.drop_last() =~= ms);
    assert(index_of(ms2).contains_key(k));
    assert(index_of(ms2)[k] == t.index[k]);
}

proof fn lemma_rewrite_prefix(s: StoreState, keys: Seq<Seq<u8>>)
    requires
        s.wf(),
        keys.no_duplicates(),
        forall|i: int| 0 <= i < keys.len() ==> s.index.contains_key(#[trigger] keys[i]),
    ensures
        s.rewrite(keys).wf(),
        s.rewrite(keys).image.len() == s.live_size(keys),
        forall|k: Seq<u8>|
            #[trigger] s.rewrite(keys).get(k) == if keys.contains(k) {
                s.get(k)
            } else {
                None
            },
    decreases keys.len(),
{
    if keys.len() == 0 {
        crate::model::lemma_empty_wf();
    } else {
        let p = keys.drop_last();
        let k = keys.last();
        assert forall|i: int| 0 <= i < p.len() implies s.index.contains_key(#[trigger] p[i]) by {
            assert(p[i] == keys[i]);
        }
        assert(p.no_duplicates());
        lemma_rewrite_prefix(s, p);
        lemma_state_bounds(s);
        assert(keys[keys.len() - 1] == k);
        let v = s.get(k).unwrap();
        lemma_set(s.rewrite(p), k, v);
        assert forall|k2: Seq<u8>| #[trigger] keys.contains(k2) <==> (p.contains(k2) || k2 == k) by {
            if keys.contains(k2) && k2 != k {
                let i = choose|i: int| 0 <= i < keys.len() && keys[i] == k2;
                assert(p[i] == k2);
            }
            if p.contains(k2) {
                let i = choose|i: int| 0 <= i < p.len() && p[i] == k2;
                assert(keys[i] == k2);
            }
            if k2 == k {
                assert(keys[keys.len() - 1] == k2);
            }
        }
        assert forall|k2: Seq<u8>|
            #[trigger] s.rewrite(keys).get(k2) == if keys.contains(k2) {
                s.get(k2)
            } else {
                None
            } by {
            if k2 != k {
                assert(s.rewrite(p).get(k2) == s.rewrite(keys).get(k2));
            }
        }
    }
}

/// A merge that rewrites each live key once, in any order, leaves every
/// lookup as it was, and the new log is exactly one entry per live key.
pub proof fn law_merge(s: StoreState, keys: Seq<Seq<u8>>)
    requires
        s.wf(),
        keys.no_duplicates(),
        keys.to_set() == s.index.dom(),
    ensures
        s.rewrite(keys).wf(),
        forall|k: Seq<u8>| #[trigger] s.rewrite(keys).get(k) == s.get(k),
        s.rewrite(keys).image.len() == s.live_size(keys),
{
    assert forall|i: int| 0 <= i < keys.len() implies s.index.contains_key(#[trigger] keys[i]) by {
        assert(keys.to_set().contains(keys[i]));
    }
    lemma_rewrite_prefix(s, keys);
    assert forall|k: Seq<u8>| #[trigger] s.rewrite(keys).get(k) == s.get(k) by {
        if !keys.contains(k) {
            assert(!keys.to_set().contains(k));
        }
    }
}

/// A key that is set and then deleted leaves nothing behind after a merge:
/// when it was the only key, the merged log is empty.
pub proof fn law_merge_reclaims(s: StoreState, k: Seq<u8>, v: Seq<u8>)
    requires
        s.wf(),
        k.len() <= u32::MAX,
        v.len() <= u32::MAX,
        s.index.dom().subset_of(set![k]),
    ensures
        s.set(k, v).delete(k).index.dom() == Set::<Seq<u8>>::empty(),
        s.set(k, v).delete(k).rewrite(Seq::empty()).image.len() == 0,
{
    assert(s.set(k, v).delete(k).index.dom() =~= Set::<Seq<u8>>::empty());
}

} // verus!
