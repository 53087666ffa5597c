//! The log as a sequence of entries, and the recovery scan that rebuilds the
//! index from it.
use vstd::prelude::*;
use crate::entry::{be_bytes, be_value, entry_bytes, lemma_be_round_trip, decode_u32_be, HEADER_LEN};
use crate::index::KeyIndex;

verus! {

/// What the scan knows of one entry: its key, the offset at which its value
/// starts and the value's length (0 for a tombstone).
pub type EntryMeta = (Seq<u8>, int, int);

/// The entries of `d` from offset `pos` to the end, or `None` where some
/// entry is cut short.
pub open spec fn parse_at(d: Seq<u8>, pos: int) -> Option<Seq<EntryMeta>>
    decreases d.len() - pos,
{
    if pos == d.len() {
        Some(Seq::empty())
    } else if pos < 0 || pos + 8 > d.len() {
        None
    } else {
        let vo = pos + 8 + be_value(d, pos);
        let end = vo + be_value(d, pos + 4);
        if end > d.len() {
            None
        } else {
            match parse_at(d, end) {
                Some(rest) => Some(seq![(d.subrange(pos + 8, vo), vo, be_value(d, pos + 4))] + rest),
                None => None,
            }
        }
    }
}

/// The entries of the whole log.
pub open spec fn parse(d: Seq<u8>) -> Option<Seq<EntryMeta>> {
    parse_at(d, 0)
}

/// The index that the entries give when read in order: a live entry sets
/// its key's location, a tombstone removes the key.
pub open spec fn index_of(ms: Seq<EntryMeta>) -> Map<Seq<u8>, (int, int)>
    decreases ms.len(),
{
    if ms.len() == 0 {
        Map::empty()
    } else {
        let m = ms.last();
        if m.2 > 0 {
            index_of(ms.drop_last()).insert(m.0, (m.1, m.2))
        } else {
            index_of(ms.drop_last()).remove(m.0)
        }
    }
}

/// For each key, the location of its last entry, tombstones included.
pub open spec fn locations_of(ms: Seq<EntryMeta>) -> Map<Seq<u8>, (int, int)>
    decreases ms.len(),
{
    if ms.len() == 0 {
        Map::empty()
    } else {
        let m = ms.last();
        locations_of(ms.drop_last()).insert(m.0, (m.1, m.2))
    }
}

/// Every entry of `ms` has lengths that fit a `u32` and lies within the
/// first `n` bytes.
pub open spec fn metas_within(ms: Seq<EntryMeta>, n: int) -> bool {
    forall|j: int|
        0 <= j < ms.len() ==> 0 <= (#[trigger] ms[j]).2 <= u32::MAX && ms[j].0.len() <= u32::MAX
            && 0 <= ms[j].1 && ms[j].1 + ms[j].2 <= n
}

pub proof fn lemma_be_value_bound(b: Seq<u8>, i: int)
    requires
        0 <= i,
        i + 4 <= b.len(),
    ensures
        0 <= be_value(b, i) <= u32::MAX,
{
}

/// Entries parsed from `d` have lengths that fit a `u32` and lie within `d`.
pub proof fn lemma_parse_within(d: Seq<u8>, pos: int)
    requires
        parse_at(d, pos) is Some,
    ensures
        metas_within(parse_at(d, pos).unwrap(), d.len() as int),
    decreases d.len() - pos,
{
    if pos != d.len() {
        lemma_be_value_bound(d, pos);
        lemma_be_value_bound(d, pos + 4);
        let vo = pos + 8 + be_value(d, pos);
        let end = vo + be_value(d, pos + 4);
        lemma_parse_within(d, end);
        let ms = parse_at(d, pos).unwrap();
        let rest = parse_at(d, end).unwrap();
        assert forall|j: int| 0 <= j < ms.len() implies 0 <= (#[trigger] ms[j]).2 <= u32::MAX
            && ms[j].0.len() <= u32::MAX && 0 <= ms[j].1 && ms[j].1 + ms[j].2 <= d.len() by {
            if j > 0 {
                assert(ms[j] == rest[j - 1]);
            }
        }
    }
}

/// What the scan records for the entry of `k` and `v` appended to `d`.
pub open spec fn appended_meta(d: Seq<u8>, k: Seq<u8>, v: Seq<u8>) -> EntryMeta {
    (k, (d.len() + 8 + k.len()) as int, v.len() as int)
}

/// Appending an entry to a log appends its description to the parse.
pub proof fn lemma_parse_append(d: Seq<u8>, pos: int, k: Seq<u8>, v: Seq<u8>)
    requires
        0 <= pos <= d.len(),
        parse_at(d, pos) is Some,
        k.len() <= u32::MAX,
        v.len() <= u32::MAX,
    ensures
        parse_at(d + entry_bytes(k, v), pos) == Some(
            parse_at(d, pos).unwrap().push(appended_meta(d, k, v)),
        ),
    decreases d.len() - pos,
{
    let e = entry_bytes(k, v);
    let dd = d + e;
    assert(forall|i: int| 0 <= i < d.len() ==> dd[i] == d[i]);
    if pos == d.len() {
        lemma_be_round_trip(k.len() as u32);
        lemma_be_round_trip(v.len() as u32);
        let hk = be_bytes(k.len() as u32);
        let hv = be_bytes(v.len() as u32);
        assert(forall|i: int| 0 <= i < 4 ==> dd[pos + i] == hk[i]);
        assert(forall|i: int| 0 <= i < 4 ==> dd[pos + 4 + i] == hv[i]);
        assert(be_value(dd, pos) == be_value(hk, 0));
        assert(be_value(dd, pos + 4) == be_value(hv, 0));
        assert(dd.len() == pos + 8 + k.len() + v.len());
        assert(parse_at(dd, dd.len() as int) == Some(Seq::<EntryMeta>::empty()));
        assert(dd.subrange(pos + 8, pos + 8 + k.len()) =~= k);
        assert(parse_at(dd, pos) == Some(
            seq![appended_meta(d, k, v)] + Seq::<EntryMeta>::empty(),
        ));
        assert(parse_at(d, pos).unwrap() =~= Seq::<EntryMeta>::empty());
        assert(seq![appended_meta(d, k, v)] + Seq::<EntryMeta>::empty()
            =~= Seq::<EntryMeta>::empty().push(appended_meta(d, k, v)));
    } else {
        let vo = pos + 8 + be_value(d, pos);
        let end = vo + be_value(d, pos + 4);
        assert(be_value(dd, pos) == be_value(d, pos));
        assert(be_value(dd, pos + 4) == be_value(d, pos + 4));
        lemma_parse_append(d, end, k, v);
        assert(dd.subrange(pos + 8, vo) =~= d.subrange(pos + 8, vo));
        let m = (d.subrange(pos + 8, vo), vo, be_value(d, pos + 4));
        let rest = parse_at(d, end).unwrap();
        let me = appended_meta(d, k, v);
        assert(seq![m] + rest.push(me) =~= (seq![m] + rest).push(me));
    }
}

/// The live index holds exactly the keys whose last entry is not a
/// tombstone, at that entry's location.
pub proof fn lemma_index_in_locations(ms: Seq<EntryMeta>)
    ensures
        forall|k: Seq<u8>|
            #![trigger index_of(ms).contains_key(k)]
            #![trigger locations_of(ms).contains_key(k)]
            index_of(ms).contains_key(k) <==> (locations_of(ms).contains_key(k)
                && locations_of(ms)[k].1 > 0),
        forall|k: Seq<u8>|
            #[trigger] index_of(ms).contains_key(k) ==> index_of(ms)[k] == locations_of(ms)[k],
    decreases ms.len(),
{
    if ms.len() > 0 {
        let p = ms.drop_last();
        let m = ms.last();
        lemma_index_in_locations(p);
        assert forall|k: Seq<u8>|
            #![trigger index_of(ms).contains_key(k)]
            #![trigger locations_of(ms).contains_key(k)]
            (index_of(ms).contains_key(k) <==> (locations_of(ms).contains_key(k)
                && locations_of(ms)[k].1 > 0)) && (index_of(ms).contains_key(k) ==> index_of(
                ms,
            )[k] == locations_of(ms)[k]) by {
            if k != m.0 {
                assert(index_of(p).contains_key(k) == index_of(ms).contains_key(k));
                assert(locations_of(p).contains_key(k) == locations_of(ms).contains_key(k));
            }
        }
    }
}

/// Each location comes from some entry of `ms`.
pub proof fn lemma_locations_within(ms: Seq<EntryMeta>, n: int)
    requires
        metas_within(ms, n),
    ensures
        forall|k: Seq<u8>|
            #[trigger] locations_of(ms).contains_key(k) ==> 0 <= locations_of(ms)[k].1
                <= u32::MAX && k.len() <= u32::MAX && 0 <= locations_of(ms)[k].0
                && locations_of(ms)[k].0 + locations_of(ms)[k].1 <= n,
    decreases ms.len(),
{
    if ms.len() > 0 {
        let p = ms.drop_last();
        assert(metas_within(p, n)) by {
            assert forall|j: int| 0 <= j < p.len() implies 0 <= (#[trigger] p[j]).2 <= u32::MAX
                && p[j].0.len() <= u32::MAX && 0 <= p[j].1 && p[j].1 + p[j].2 <= n by {
                assert(p[j] == ms[j]);
            }
        }
        lemma_locations_within(p, n);
        let m = ms.last();
        assert(m == ms[ms.len() - 1]);
        assert forall|k: Seq<u8>| #[trigger] locations_of(ms).contains_key(k) implies 0
            <= locations_of(ms)[k].1 <= u32::MAX && k.len() <= u32::MAX && 0 <= locations_of(
            ms,
        )[k].0 && locations_of(ms)[k].0 + locations_of(ms)[k].1 <= n by {
            if k != m.0 {
                assert(locations_of(p).contains_key(k));
            }
        }
    }
}

/// Why a log could not be read.
#[derive(Debug, Clone, Copy, PartialEq, Eq, Structural)]
pub enum LogError {
    /// An entry's header or bytes run past the end of the log.
    TruncatedEntry,
}

/// `Some(seen + r)` where `rest` is `Some(r)`, else `None`.
pub open spec fn after(seen: Seq<EntryMeta>, rest: Option<Seq<EntryMeta>>) -> Option<Seq<EntryMeta>> {
    match rest {
        Some(r) => Some(seen + r),
        None => None,
    }
}

/// Reads the header and the key of the entry at `pos`: the key and the
/// value's length.  The value itself is not read.
fn decode_header_and_key(data: &[u8], pos: usize) -> (r: Result<(Vec<u8>, u32), LogError>)
    requires
        pos < data@.len(),
    ensures
        r is Ok <==> pos + 8 <= data@.len() && pos + 8 + be_value(data@, pos as int)
            <= data@.len(),
        r matches Ok((key, vlen)) ==> key@ == data@.subrange(
            pos + 8,
            pos + 8 + be_value(data@, pos as int),
        ) && vlen as int == be_value(data@, pos + 4),
{
    if data.len() - pos < 8 {
        return Err(LogError::TruncatedEntry);
    }
    let klen = decode_u32_be(data, pos);
    let vlen = decode_u32_be(data, pos + 4);
    if ((data.len() - pos - 8) as u64) < klen as u64 {
        return Err(LogError::TruncatedEntry);
    }
    let start = pos + 8;
    let end = start + klen as usize;
    let mut key: Vec<u8> = Vec::new();
    let mut i: usize = start;
    while i < end
        invariant
            start <= i <= end <= data@.len(),
            key@ == data@.subrange(start as int, i as int),
        decreases end - i,
    {
        key.push(data[i]);
        i = i + 1;
        assert(key@ =~= data@.subrange(start as int, i as int));
    }
    Ok((key, vlen))
}

/// Rebuilds the index by scanning the log `data` from its first byte to its
/// last, entry by entry in file order; value bytes are skipped, never read.
pub fn rebuild_index(data: &[u8]) -> (r: Result<KeyIndex, LogError>)
    ensures
        r is Ok <==> parse(data@) is Some,
        r matches Ok(idx) ==> idx.wf() && idx@ == index_of(parse(data@).unwrap()),
{
    let mut idx = KeyIndex::new();
    let mut pos: usize = 0;
    let ghost mut seen: Seq<EntryMeta> = Seq::empty();
    assert(seen + parse_at(data@, 0).unwrap_or(Seq::empty()) =~= parse_at(data@, 0).unwrap_or(
        Seq::empty(),
    ));
    while pos < data.len()
        invariant
            pos <= data@.len(),
            idx.wf(),
            idx@ == index_of(seen),
            parse(data@) == after(seen, parse_at(data@, pos as int)),
        decreases data@.len() - pos,
    {
        let (key, vlen) = match decode_header_and_key(data, pos) {
            Ok(kv) => kv,
            Err(e) => {
                return Err(e);
            },
        };
        let vo = pos + 8 + key.len();
        if ((data.len() - vo) as u64) < vlen as u64 {
            return Err(LogError::TruncatedEntry);
        }
        let end = vo + vlen as usize;
        let ghost m: EntryMeta = (key@, vo as int, vlen as int);
        proof {
            let rest = parse_at(data@, end as int);
            if let Some(r) = rest {
                assert(seen + (seq![m] + r) =~= seen.push(m) + r);
            }
            assert(seen.push(m).drop_last() =~= seen);
            seen = seen.push(m);
        }
        if vlen > 0 {
            idx.insert(key.as_slice(), vo as u64, vlen);
        } else {
            idx.remove(key.as_slice());
        }
        pos = end;
    }
    assert(seen + Seq::<EntryMeta>::empty() =~= seen);
    Ok(idx)
}

} // verus!
