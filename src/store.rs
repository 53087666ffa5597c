//! The store: the index together with the length of its log.
//!
//! The store decides what each operation writes and where a value lies;
//! the caller moves the bytes.  A write goes in two steps: `entry_for_set`
//! (or `entry_for_delete`) gives the bytes to append, and once they are
//! appended `commit_set` (or `commit_delete`) updates the index, so a failed
//! append leaves the index as it was.
use vstd::prelude::*;
use crate::entry::{encode_entry, entry_bytes, HEADER_LEN};
use crate::index::KeyIndex;
use crate::log::{index_of, parse, rebuild_index, lemma_index_in_locations, LogError};
use crate::model::{StoreState, lemma_empty_wf, lemma_set, lemma_delete, lemma_state_bounds};

verus! {

/// An open store: its index, the length of its log, and (as a ghost) the
/// bytes of the log.
pub struct Store {
    index: KeyIndex,
    log_len: u64,
    image: Ghost<Seq<u8>>,
}

impl View for Store {
    type V = StoreState;

    closed spec fn view(&self) -> StoreState {
        StoreState { image: self.image@, index: self.index@ }
    }
}

/// Whether an entry for a key of `key_len` bytes and a value of `value_len`
/// bytes can be appended to a log of `log_len` bytes: both lengths fit the
/// header's `u32` fields and the log stays addressable by a `u64`.
pub open spec fn entry_fits(log_len: int, key_len: int, value_len: int) -> bool {
    key_len <= u32::MAX && value_len <= u32::MAX && log_len + HEADER_LEN + key_len + value_len
        <= u64::MAX
}

impl Store {
    /// The index matches the log and the recorded length is the log's.
    pub closed spec fn wf(&self) -> bool {
        &&& self.index.wf()
        &&& self@.wf()
        &&& self.log_len == self.image@.len()
    }

    /// A store on an empty log.
    pub fn new() -> (r: Store)
        ensures
            r.wf(),
            r@ == StoreState::empty(),
    {
        proof {
            lemma_empty_wf();
        }
        Store { index: KeyIndex::new(), log_len: 0, image: Ghost(Seq::empty()) }
    }

    /// Opens a store on the log `data`, rebuilding the index by a scan in
    /// file order.  Fails exactly when some entry of the log is cut short.
    pub fn open(data: &[u8]) -> (r: Result<Store, LogError>)
        ensures
            r is Ok <==> parse(data@) is Some,
            r matches Ok(s) ==> s.wf() && s@ == StoreState::reopen(data@),
    {
        let index = match rebuild_index(data) {
            Ok(index) => index,
            Err(e) => {
                return Err(e);
            },
        };
        proof {
            lemma_index_in_locations(parse(data@).unwrap());
        }
        Ok(Store { index, log_len: data.len() as u64, image: Ghost(data@) })
    }

    /// The length of the log in bytes.
    pub fn log_len(&self) -> (r: u64)
        requires
            self.wf(),
        ensures
            r == self@.image.len(),
    {
        self.log_len
    }

    /// The number of live keys.
    pub fn len(&self) -> (r: usize)
        requires
            self.wf(),
        ensures
            r == self@.index.dom().len(),
    {
        self.index.len()
    }

    /// Where the value of `key` lies in the log: `None` when the key has no
    /// live value, else the offset and length of the bytes that `get`
    /// returns.
    pub fn locate(&self, key: &[u8]) -> (r: Option<(u64, u32)>)
        requires
            self.wf(),
        ensures
            r is None <==> self@.get(key@) is None,
            r matches Some(p) ==> p.0 + p.1 <= self@.image.len() && self@.get(key@) == Some(
                self@.image.subrange(p.0 as int, p.0 + p.1),
            ),
    {
        proof {
            lemma_state_bounds(self@);
        }
        self.index.get(key)
    }

    /// Whether an entry of a `key_len`-byte key and a `value_len`-byte value
    /// can be appended.
    pub fn fits(&self, key_len: usize, value_len: usize) -> (r: bool)
        requires
            self.wf(),
        ensures
            r == entry_fits(self@.image.len() as int, key_len as int, value_len as int),
    {
        if key_len as u64 > u32::MAX as u64 || value_len as u64 > u32::MAX as u64 {
            return false;
        }
        self.log_len <= u64::MAX - HEADER_LEN - key_len as u64 - value_len as u64
    }

    /// The bytes that `set(key, value)` appends to the log, or `None` when
    /// the entry does not fit.
    pub fn entry_for_set(&self, key: &[u8], value: &[u8]) -> (r: Option<Vec<u8>>)
        requires
            self.wf(),
        ensures
            r is Some <==> entry_fits(self@.image.len() as int, key@.len() as int, value@.len() as int),
            r matches Some(b) ==> b@ == entry_bytes(key@, value@),
    {
        if self.fits(key.len(), value.len()) {
            Some(encode_entry(key, value))
        } else {
            None
        }
    }

    /// The tombstone that `delete(key)` appends to the log, or `None` when
    /// the entry does not fit.
    pub fn entry_for_delete(&self, key: &[u8]) -> (r: Option<Vec<u8>>)
        requires
            self.wf(),
        ensures
            r is Some <==> entry_fits(self@.image.len() as int, key@.len() as int, 0),
            r matches Some(b) ==> b@ == entry_bytes(key@, Seq::empty()),
    {
        let empty: Vec<u8> = Vec::new();
        if self.fits(key.len(), 0) {
            let b = encode_entry(key, empty.as_slice());
            Some(b)
        } else {
            None
        }
    }

    /// Records that the entry of `key` and `value` was appended: the index
    /// now points at the new value.  Returns the value's offset and length.
    pub fn commit_set(&mut self, key: &[u8], value: &[u8]) -> (r: (u64, u32))
        requires
            old(self).wf(),
            entry_fits(old(self)@.image.len() as int, key@.len() as int, value@.len() as int),
        ensures
            final(self).wf(),
            final(self)@ == old(self)@.set(key@, value@),
            r.0 == old(self)@.image.len() + HEADER_LEN + key@.len(),
            r.1 == value@.len(),
    {
        proof {
            lemma_set(self@, key@, value@);
        }
        let offset = self.log_len + HEADER_LEN + key.len() as u64;
        let len = value.len() as u32;
        self.index.insert(key, offset, len);
        self.log_len = offset + len as u64;
        self.image = Ghost(self.image@ + entry_bytes(key@, value@));
        (offset, len)
    }

    /// Records that a tombstone for `key` was appended: the key leaves the
    /// index, whether it was there or not.
    pub fn commit_delete(&mut self, key: &[u8])
        requires
            old(self).wf(),
            entry_fits(old(self)@.image.len() as int, key@.len() as int, 0),
        ensures
            final(self).wf(),
            final(self)@ == old(self)@.delete(key@),
    {
        proof {
            lemma_delete(self@, key@);
        }
        self.index.remove(key);
        self.log_len = self.log_len + HEADER_LEN + key.len() as u64;
        self.image = Ghost(self.image@ + entry_bytes(key@, Seq::empty()));
    }

    /// The live entries that a merge rewrites: each live key once, with the
    /// offset and length of its value in the current log.
    pub fn merge_slots(&self) -> (r: Vec<(Vec<u8>, u64, u32)>)
        requires
            self.wf(),
        ensures
            r@.len() == self@.index.dom().len(),
            slot_keys(r@).no_duplicates(),
            slot_keys(r@).to_set() == self@.index.dom(),
            forall|i: int|
                0 <= i < r@.len() ==> self@.index[(#[trigger] r@[i]).0@] == (
                    r@[i].1 as int,
                    r@[i].2 as int,
                ),
    {
        proof {
            self.index.lemma_keys();
        }
        let n = self.index.len();
        let mut r: Vec<(Vec<u8>, u64, u32)> = Vec::new();
        let mut i: usize = 0;
        while i < n
            invariant
                n == self.index.keys().len(),
                self.index.wf(),
                i <= n,
                r@.len() == i,
                forall|j: int| 0 <= j < i ==> (#[trigger] r@[j]).0@ == self.index.keys()[j],
                forall|j: int|
                    0 <= j < i ==> self@.index[(#[trigger] r@[j]).0@] == (
                        r@[j].1 as int,
                        r@[j].2 as int,
                    ),
            decreases n - i,
        {
            let s = self.index.slot(i);
            r.push(s);
            i = i + 1;
        }
        assert(slot_keys(r@) =~= self.index.keys());
        r
    }
}

/// The keys of a list of slots, in order.
pub open spec fn slot_keys(slots: Seq<(Vec<u8>, u64, u32)>) -> Seq<Seq<u8>> {
    slots.map_values(|s: (Vec<u8>, u64, u32)| s.0@)
}

} // verus!
