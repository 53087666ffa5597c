use mini_bitcask::entry::{decode_u32_be, encode_entry};
use mini_bitcask::log::{rebuild_index, LogError};
use mini_bitcask::store::Store;

/// A store together with the bytes of its log, kept in memory.
struct Engine {
    log: Vec<u8>,
    store: Store,
}

impl Engine {
    fn open(log: Vec<u8>) -> Engine {
        let store = Store::open(&log).expect("log parses");
        Engine { log, store }
    }

    fn set(&mut self, key: &[u8], value: &[u8]) {
        let bytes = self.store.entry_for_set(key, value).expect("entry fits");
        self.log.extend_from_slice(&bytes);
        self.store.commit_set(key, value);
    }

    fn delete(&mut self, key: &[u8]) {
        let bytes = self.store.entry_for_delete(key).expect("entry fits");
        self.log.extend_from_slice(&bytes);
        self.store.commit_delete(key);
    }

    fn get(&self, key: &[u8]) -> Option<Vec<u8>> {
        self.store
            .locate(key)
            .map(|(off, len)| self.log[off as usize..off as usize + len as usize].to_vec())
    }

    fn merge(&mut self) {
        let mut log: Vec<u8> = Vec::new();
        let mut store = Store::new();
        for (key, off, len) in self.store.merge_slots() {
            let value = self.log[off as usize..off as usize + len as usize].to_vec();
            let bytes = store.entry_for_set(&key, &value).expect("entry fits");
            log.extend_from_slice(&bytes);
            store.commit_set(&key, &value);
        }
        self.log = log;
        self.store = store;
    }

    fn len(&self) -> u64 {
        assert_eq!(self.store.log_len(), self.log.len() as u64);
        self.store.log_len()
    }
}

#[test]
fn test_write_read() {
    let mut e = Engine::open(Vec::new());
    e.set(b"CQM", b"handsome");
    let val = e.get(b"CQM");
    assert_eq!(b"handsome".to_vec(), val.unwrap());
}

#[test]
fn test_write_reboot_read() {
    let mut e = Engine::open(Vec::new());
    e.set(b"CQM", b"handsome");
    let log = e.log.clone();
    drop(e);
    let reboot = Engine::open(log);
    let val = reboot.get(b"CQM");
    assert_eq!(b"handsome".to_vec(), val.unwrap());
}

#[test]
fn test_write_delete_merge() {
    let mut e = Engine::open(Vec::new());
    e.set(b"CQM", b"handsome");
    assert!(e.len() > 0);
    e.delete(b"CQM");
    e.merge();
    assert!(e.len() == 0);
}

#[test]
fn test_write_repeat_merge() {
    let mut e = Engine::open(Vec::new());
    e.set(b"CQM", b"handsome");
    e.set(b"CQM", b"so fuck handsome");
    assert!(e.len() == 19 + 27);
    e.merge();
    assert!(e.len() == 27);
}

#[test]
fn test_write_repeat_merge_read() {
    let mut e = Engine::open(Vec::new());
    e.set(b"CQM", b"handsome");
    assert_eq!(e.get(b"CQM").unwrap(), b"handsome".to_vec());
    e.set(b"CQM", b"so fuck handsome");
    assert_eq!(e.get(b"CQM").unwrap(), b"so fuck handsome".to_vec());
    e.merge();
    assert_eq!(e.get(b"CQM").unwrap(), b"so fuck handsome".to_vec());
}

#[test]
fn entry_encoding_is_big_endian() {
    let bytes = encode_entry(b"CQM", b"handsome");
    let mut expected = vec![0, 0, 0, 3, 0, 0, 0, 8];
    expected.extend_from_slice(b"CQM");
    expected.extend_from_slice(b"handsome");
    assert_eq!(bytes, expected);
    assert_eq!(bytes.len(), 19);
}

#[test]
fn tombstone_has_no_value_bytes() {
    let bytes = encode_entry(b"CQM", b"");
    assert_eq!(bytes, vec![0, 0, 0, 3, 0, 0, 0, 0, b'C', b'Q', b'M']);
}

#[test]
fn decode_reads_big_endian() {
    let b = [9u8, 0x01, 0x02, 0x03, 0x04];
    assert_eq!(decode_u32_be(&b, 1), 0x0102_0304);
    let long = encode_entry(&[7u8; 300], b"x");
    assert_eq!(decode_u32_be(&long, 0), 300);
    assert_eq!(decode_u32_be(&long, 4), 1);
}

#[test]
fn set_then_get_returns_value() {
    let mut e = Engine::open(Vec::new());
    e.set(b"k1", b"v1");
    e.set(b"k2", b"value two");
    assert_eq!(e.get(b"k1"), Some(b"v1".to_vec()));
    assert_eq!(e.get(b"k2"), Some(b"value two".to_vec()));
    assert_eq!(e.get(b"k3"), None);
}

#[test]
fn overwrite_keeps_both_entries_and_points_at_latest() {
    let mut e = Engine::open(Vec::new());
    e.set(b"k", b"one");
    e.set(b"k", b"three");
    assert_eq!(e.get(b"k"), Some(b"three".to_vec()));
    assert_eq!(e.len(), (8 + 1 + 3) + (8 + 1 + 5));
    assert_eq!(e.store.locate(b"k"), Some((12 + 8 + 1, 5)));
}

#[test]
fn delete_appends_tombstone_and_removes_key() {
    let mut e = Engine::open(Vec::new());
    e.set(b"k", b"v");
    e.delete(b"k");
    assert_eq!(e.get(b"k"), None);
    assert_eq!(e.len(), 10 + 9);
    assert_eq!(e.store.len(), 0);
}

#[test]
fn delete_of_missing_key_still_appends() {
    let mut e = Engine::open(Vec::new());
    e.delete(b"ghost");
    assert_eq!(e.len(), 13);
    assert_eq!(e.get(b"ghost"), None);
}

#[test]
fn reopen_matches_every_key() {
    let mut e = Engine::open(Vec::new());
    e.set(b"a", b"1");
    e.set(b"b", b"22");
    e.delete(b"a");
    e.set(b"c", b"333");
    e.set(b"b", b"4444");
    let r = Engine::open(e.log.clone());
    for k in [&b"a"[..], b"b", b"c", b"d"] {
        assert_eq!(r.get(k), e.get(k));
    }
    assert_eq!(r.get(b"b"), Some(b"4444".to_vec()));
    assert_eq!(r.get(b"a"), None);
}

#[test]
fn tombstone_then_set_is_live_after_reopen() {
    let mut e = Engine::open(Vec::new());
    e.set(b"k", b"old");
    e.delete(b"k");
    e.set(b"k", b"new");
    let r = Engine::open(e.log.clone());
    assert_eq!(r.get(b"k"), Some(b"new".to_vec()));
}

#[test]
fn merge_keeps_live_values_and_sizes() {
    let mut e = Engine::open(Vec::new());
    e.set(b"a", b"1");
    e.set(b"bb", b"22");
    e.set(b"a", b"111");
    e.set(b"ccc", b"x");
    e.delete(b"ccc");
    e.merge();
    assert_eq!(e.get(b"a"), Some(b"111".to_vec()));
    assert_eq!(e.get(b"bb"), Some(b"22".to_vec()));
    assert_eq!(e.get(b"ccc"), None);
    assert_eq!(e.len(), (8 + 1 + 3) + (8 + 2 + 2));
    let r = Engine::open(e.log.clone());
    assert_eq!(r.get(b"a"), Some(b"111".to_vec()));
    assert_eq!(r.get(b"bb"), Some(b"22".to_vec()));
}

#[test]
fn merge_of_set_then_delete_is_empty() {
    let mut e = Engine::open(Vec::new());
    e.set(b"CQM", b"handsome");
    assert_eq!(e.len(), 19);
    e.delete(b"CQM");
    assert_eq!(e.len(), 30);
    e.merge();
    assert_eq!(e.len(), 0);
}

#[test]
fn truncated_log_is_refused() {
    let full = encode_entry(b"key", b"value");
    for cut in 1..full.len() {
        assert_eq!(Store::open(&full[..cut]).err(), Some(LogError::TruncatedEntry));
        assert!(rebuild_index(&full[..cut]).is_err());
    }
    assert!(Store::open(&full).is_ok());
    assert!(Store::open(&[]).is_ok());
}

#[test]
fn rebuild_skips_values() {
    let mut log = encode_entry(b"a", b"first");
    log.extend_from_slice(&encode_entry(b"b", b"second"));
    log.extend_from_slice(&encode_entry(b"a", b""));
    let idx = rebuild_index(&log).unwrap();
    assert_eq!(idx.len(), 1);
    assert_eq!(idx.get(b"a"), None);
    assert_eq!(idx.get(b"b"), Some((14 + 8 + 1, 6)));
}

#[test]
fn oversized_entry_does_not_fit() {
    let s = Store::new();
    assert!(s.fits(3, 8));
    assert!(!s.fits(u32::MAX as usize + 1, 0));
    assert!(!s.fits(0, u32::MAX as usize + 1));
}
