use kvs::record::CHECK_SEED;
use kvs::{Command, KvsError, LogIndex};

/// A store whose log file is a byte vector, driven through the index the way
/// a file-backed store drives it.
struct MemStore {
    file: Vec<u8>,
    index: LogIndex,
}

impl MemStore {
    fn new() -> MemStore {
        MemStore { file: Vec::new(), index: LogIndex::new() }
    }

    fn reopen(file: Vec<u8>) -> MemStore {
        let index = LogIndex::recover(&file).expect("log is not corrupt");
        let mut file = file;
        file.truncate(index.log_len() as usize);
        MemStore { file, index }
    }

    fn set(&mut self, key: &str, value: &str) {
        let cmd = Command::Put { key: key.to_string(), value: value.to_string() };
        self.file.extend_from_slice(&cmd.encode());
        if self.index.record(&cmd) {
            self.compact();
        }
    }

    fn get(&self, key: &str) -> Option<String> {
        let key = key.to_string();
        self.index.lookup(&key).map(|p| {
            let record = &self.file[p.offset as usize..(p.offset + p.len) as usize];
            LogIndex::read_value(&key, record).expect("record reads back")
        })
    }

    fn remove(&mut self, key: &str) -> Result<(), KvsError> {
        let key = key.to_string();
        let bytes = self.index.remove_record(&key)?;
        self.file.extend_from_slice(&bytes);
        self.index.record(&Command::Remove { key });
        Ok(())
    }

    fn compact(&mut self) {
        let mut fresh = Vec::new();
        for p in self.index.live_pointers() {
            fresh.extend_from_slice(&self.file[p.offset as usize..(p.offset + p.len) as usize]);
        }
        self.file = fresh;
        self.index.finish_compaction();
    }
}

fn put_size(key: &str, value: &str) -> usize {
    25 + key.len() + value.len()
}

#[test]
fn set_then_get_on_empty_store() {
    let mut s = MemStore::new();
    s.set("k", "v");
    assert_eq!(s.get("k"), Some("v".to_string()));
    assert_eq!(s.get("other"), None);
}

#[test]
fn empty_value_is_kept() {
    let mut s = MemStore::new();
    s.set("k", "");
    assert_eq!(s.get("k"), Some(String::new()));
}

#[test]
fn overwrite_survives_reopen() {
    let mut s = MemStore::new();
    s.set("k", "v1");
    s.set("k", "v2");
    let s = MemStore::reopen(s.file);
    assert_eq!(s.get("k"), Some("v2".to_string()));
}

#[test]
fn remove_then_get_and_remove_again() {
    let mut s = MemStore::new();
    s.set("k", "v");
    assert!(s.remove("k").is_ok());
    assert_eq!(s.get("k"), None);
    let before = s.file.clone();
    assert!(matches!(s.remove("k"), Err(KvsError::KeyNotFound)));
    assert_eq!(s.file, before);
    assert_eq!(s.index.len(), 0);
}

#[test]
fn remove_of_missing_key_writes_nothing() {
    let s = MemStore::new();
    let key = "absent".to_string();
    assert!(matches!(s.index.remove_record(&key), Err(KvsError::KeyNotFound)));
}

#[test]
fn last_write_wins_over_a_mixed_sequence() {
    let mut s = MemStore::new();
    s.set("a", "1");
    s.set("b", "2");
    s.set("a", "3");
    s.remove("b").unwrap();
    s.set("c", "4");
    s.remove("c").unwrap();
    s.set("c", "5");
    assert_eq!(s.get("a"), Some("3".to_string()));
    assert_eq!(s.get("b"), None);
    assert_eq!(s.get("c"), Some("5".to_string()));
    let s = MemStore::reopen(s.file);
    assert_eq!(s.get("a"), Some("3".to_string()));
    assert_eq!(s.get("b"), None);
    assert_eq!(s.get("c"), Some("5".to_string()));
}

#[test]
fn compaction_keeps_one_record_per_key() {
    let mut s = MemStore::new();
    for i in 0..50 {
        s.set("k", &format!("value-{}", i));
    }
    s.compact();
    assert_eq!(s.index.len(), 1);
    assert_eq!(s.file.len(), put_size("k", "value-49"));
    assert_eq!(s.index.log_len() as usize, s.file.len());
    assert_eq!(s.get("k"), Some("value-49".to_string()));
    let s = MemStore::reopen(s.file);
    assert_eq!(s.get("k"), Some("value-49".to_string()));
}

#[test]
fn compaction_bounds_log_size_after_overwrites() {
    let mut s = MemStore::new();
    let first = "x".repeat(100);
    let second = "y".repeat(100);
    for i in 0..1000 {
        s.set(&format!("key{}", i), &first);
    }
    for i in 0..1000 {
        s.set(&format!("key{}", i), &second);
    }
    s.compact();
    let live: usize = (0..1000).map(|i| format!("key{}", i).len() + second.len()).sum();
    assert!(s.file.len() < 2 * live);
    let exact: usize = (0..1000).map(|i| put_size(&format!("key{}", i), &second)).sum();
    assert_eq!(s.file.len(), exact);
    for i in 0..1000 {
        assert_eq!(s.get(&format!("key{}", i)), Some(second.clone()));
    }
}

#[test]
fn automatic_compaction_past_the_threshold() {
    let mut s = MemStore::new();
    let value = "z".repeat(1000);
    for _ in 0..1100 {
        s.set("big", &value);
    }
    assert!(s.file.len() as u64 <= kvs::COMPACTION_THRESHOLD);
    assert_eq!(s.get("big"), Some(value));
}

#[test]
fn torn_tail_is_cut_off_on_recovery() {
    let mut s = MemStore::new();
    s.set("a", "1");
    let whole = s.file.len();
    let cmd = Command::Put { key: "b".to_string(), value: "2".to_string() };
    let bytes = cmd.encode();
    let mut file = s.file.clone();
    file.extend_from_slice(&bytes[..bytes.len() - 1]);
    let ix = LogIndex::recover(&file).unwrap();
    assert_eq!(ix.log_len() as usize, whole);
    assert_eq!(ix.len(), 1);
}

#[test]
fn corrupt_record_is_an_error() {
    let mut s = MemStore::new();
    s.set("a", "1");
    let mut file = s.file.clone();
    file.push(7);
    assert!(matches!(LogIndex::recover(&file), Err(KvsError::Codec)));
}

#[test]
fn invalid_utf8_in_a_record_is_an_error() {
    let mut bytes = Command::Put { key: "a".to_string(), value: "b".to_string() }.encode();
    let last = bytes.len() - 1;
    bytes[last] = 0xff;
    assert!(matches!(LogIndex::recover(&bytes), Err(KvsError::Codec)));
}

#[test]
fn read_value_checks_the_key() {
    let bytes = Command::Put { key: "a".to_string(), value: "b".to_string() }.encode();
    assert_eq!(LogIndex::read_value(&"a".to_string(), &bytes).unwrap(), "b");
    assert!(matches!(LogIndex::read_value(&"x".to_string(), &bytes), Err(KvsError::Codec)));
    let rm = Command::Remove { key: "a".to_string() }.encode();
    assert!(matches!(LogIndex::read_value(&"a".to_string(), &rm), Err(KvsError::Codec)));
}

#[test]
fn command_encoding_is_exact() {
    let bytes = Command::Put { key: "ab".to_string(), value: "c".to_string() }.encode();
    let check = CHECK_SEED ^ 2 ^ !1u64;
    let mut expected = vec![0u8];
    expected.extend_from_slice(&2u64.to_le_bytes());
    expected.extend_from_slice(&1u64.to_le_bytes());
    expected.extend_from_slice(&check.to_le_bytes());
    expected.extend_from_slice(b"abc");
    assert_eq!(bytes, expected);
    let rm = Command::Remove { key: "é".to_string() }.encode();
    let check = CHECK_SEED ^ 2 ^ !0u64 ^ 1;
    let mut expected = vec![1u8];
    expected.extend_from_slice(&2u64.to_le_bytes());
    expected.extend_from_slice(&check.to_le_bytes());
    expected.extend_from_slice(&[0xc3, 0xa9]);
    assert_eq!(rm, expected);
}

#[test]
fn damaged_length_inside_the_log_is_an_error() {
    let mut s = MemStore::new();
    s.set("a", "1");
    let second = s.file.len();
    s.set("b", "2");
    s.set("c", "3");
    let mut file = s.file.clone();
    file[second + 1..second + 9].copy_from_slice(&1000u64.to_le_bytes());
    assert!(matches!(LogIndex::recover(&file), Err(KvsError::Codec)));
}

#[test]
fn torn_header_is_cut_off_on_recovery() {
    let mut s = MemStore::new();
    s.set("a", "1");
    let whole = s.file.len();
    let bytes = Command::Put { key: "b".to_string(), value: "2".to_string() }.encode();
    for cut in 1..bytes.len() {
        let mut file = s.file.clone();
        file.extend_from_slice(&bytes[..cut]);
        let ix = LogIndex::recover(&file).unwrap();
        assert_eq!(ix.log_len() as usize, whole);
    }
}

#[test]
fn damaged_partial_header_at_the_end_is_an_error() {
    let mut s = MemStore::new();
    s.set("a", "1");
    let mut bytes = Command::Put { key: "b".to_string(), value: "2".to_string() }.encode();
    bytes[17] ^= 0xff;
    let mut file = s.file.clone();
    file.extend_from_slice(&bytes[..20]);
    assert!(matches!(LogIndex::recover(&file), Err(KvsError::Codec)));
}

#[test]
fn set_points_at_the_new_record_and_keeps_other_pointers() {
    let mut s = MemStore::new();
    s.set("a", "1");
    s.set("b", "2");
    let b_before = s.index.lookup(&"b".to_string()).unwrap();
    let old_len = s.file.len() as u64;
    s.set("a", "333");
    let a = s.index.lookup(&"a".to_string()).unwrap();
    assert_eq!(a.offset, old_len);
    assert_eq!(a.len as usize, put_size("a", "333"));
    assert_eq!(s.index.lookup(&"b".to_string()).unwrap(), b_before);
}

#[test]
fn reopened_index_points_at_last_puts() {
    let mut s = MemStore::new();
    s.set("a", "1");
    s.set("b", "2");
    s.set("a", "3");
    s.remove("b").unwrap();
    s.set("b", "4");
    let a = s.index.lookup(&"a".to_string()).unwrap();
    let b = s.index.lookup(&"b".to_string()).unwrap();
    let r = MemStore::reopen(s.file.clone());
    assert_eq!(r.index.lookup(&"a".to_string()).unwrap(), a);
    assert_eq!(r.index.lookup(&"b".to_string()).unwrap(), b);
    let a_offset = (put_size("a", "1") + put_size("b", "2")) as u64;
    assert_eq!(a.offset, a_offset);
}
