use kvs::error::KvsError;
use kvs::record::{encode_command, read_value, CommandKind};
use kvs::segment::next_generation;
use kvs::writer::KvStoreWriter;
use std::collections::BTreeMap;

/// A store whose segment files are byte vectors, driven as a caller drives
/// the writer: append the bytes, then hand them to the writer.
struct Store {
    writer: KvStoreWriter,
    files: BTreeMap<u64, Vec<u8>>,
}

impl Store {
    fn open(files: BTreeMap<u64, Vec<u8>>) -> Store {
        let ids: Vec<u64> = files.keys().cloned().collect();
        let active = next_generation(&ids).unwrap();
        let mut writer = KvStoreWriter::new(active);
        for id in &ids {
            writer.replay(*id, &files[id]);
        }
        let mut files = files;
        files.insert(active, Vec::new());
        Store { writer, files }
    }

    fn set(&mut self, key: &str, value: &str) {
        let rec = encode_command(CommandKind::Put, key, value);
        let active = self.writer.active_generation();
        self.files.get_mut(&active).unwrap().extend_from_slice(&rec);
        let due = self.writer.append(&rec).unwrap();
        if due {
            self.compact();
        }
    }

    fn remove(&mut self, key: &str) -> Result<(), KvsError> {
        let rec = self.writer.tombstone(key)?;
        let active = self.writer.active_generation();
        self.files.get_mut(&active).unwrap().extend_from_slice(&rec);
        let due = self.writer.append(&rec).unwrap();
        if due {
            self.compact();
        }
        Ok(())
    }

    fn get(&self, key: &str) -> Option<String> {
        let pos = self.writer.lookup(key)?;
        let file = &self.files[&pos.gen];
        let start = pos.offset as usize;
        let bytes = &file[start..start + pos.len as usize];
        Some(read_value(key, bytes).unwrap())
    }

    fn compact(&mut self) {
        let plan = self.writer.compact().unwrap();
        let mut out = Vec::new();
        for p in &plan.copies {
            let file = &self.files[&p.gen];
            let start = p.offset as usize;
            out.extend_from_slice(&file[start..start + p.len as usize]);
        }
        self.files.insert(plan.compact_gen, out);
        self.files.insert(plan.active_gen, Vec::new());
        for g in &plan.obsolete {
            self.files.remove(g);
        }
    }

    fn disk_bytes(&self) -> usize {
        self.files.values().map(|f| f.len()).sum()
    }
}

#[test]
fn set_then_get_on_an_empty_store() {
    let mut s = Store::open(BTreeMap::new());
    s.set("k1", "v1");
    assert_eq!(s.get("k1"), Some("v1".to_string()));
    assert_eq!(s.get("k2"), None);
}

#[test]
fn overwrite_survives_reopen() {
    let mut s = Store::open(BTreeMap::new());
    s.set("k", "v1");
    s.set("k", "v2");
    assert_eq!(s.get("k"), Some("v2".to_string()));
    let s2 = Store::open(s.files.clone());
    assert_eq!(s2.get("k"), Some("v2".to_string()));
}

#[test]
fn remove_twice_is_not_found_and_stays_removed_after_reopen() {
    let mut s = Store::open(BTreeMap::new());
    s.set("k", "v");
    assert!(s.remove("k").is_ok());
    assert!(matches!(s.remove("k"), Err(KvsError::RecordNotFound)));
    assert_eq!(s.get("k"), None);
    let s2 = Store::open(s.files.clone());
    assert_eq!(s2.get("k"), None);
}

#[test]
fn remove_of_a_never_written_key_is_not_found() {
    let mut s = Store::open(BTreeMap::new());
    assert!(matches!(s.remove("nothing"), Err(KvsError::RecordNotFound)));
}

#[test]
fn many_overwrites_compact_and_keep_every_value() {
    let mut s = Store::open(BTreeMap::new());
    let value = "x".repeat(256);
    let n = 10_000;
    for round in 0..3 {
        for i in 0..n {
            let v = format!("{}{}", round, &value[1..]);
            s.set(&format!("key{}", i), &v);
        }
    }
    let live: usize = (0..n)
        .map(|i| encode_command(CommandKind::Put, &format!("key{}", i), &value).len())
        .sum();
    assert!(s.disk_bytes() < 3 * live);
    for i in 0..n {
        let v = format!("{}{}", 2, &value[1..]);
        assert_eq!(s.get(&format!("key{}", i)), Some(v));
    }
    let s2 = Store::open(s.files.clone());
    assert_eq!(s2.get("key17"), Some(format!("{}{}", 2, &value[1..])));
}

#[test]
fn compaction_keeps_what_each_key_reads() {
    let mut s = Store::open(BTreeMap::new());
    s.set("a", "1");
    s.set("b", "2");
    s.set("a", "3");
    s.remove("b").unwrap();
    s.set("c", "4");
    let before = s.writer.active_generation();
    s.compact();
    assert_eq!(s.writer.active_generation(), before + 2);
    assert_eq!(s.writer.stale_bytes(), 0);
    assert_eq!(s.get("a"), Some("3".to_string()));
    assert_eq!(s.get("b"), None);
    assert_eq!(s.get("c"), Some("4".to_string()));
    let live = encode_command(CommandKind::Put, "a", "3").len()
        + encode_command(CommandKind::Put, "c", "4").len();
    assert_eq!(s.disk_bytes(), live);
    let s2 = Store::open(s.files.clone());
    assert_eq!(s2.get("a"), Some("3".to_string()));
    assert_eq!(s2.get("c"), Some("4".to_string()));
}

#[test]
fn stale_counter_counts_overwritten_and_removed_records() {
    let mut w = KvStoreWriter::new(1);
    let r1 = encode_command(CommandKind::Put, "k", "v1");
    let r2 = encode_command(CommandKind::Put, "k", "v22");
    assert_eq!(w.append(&r1).unwrap(), false);
    assert_eq!(w.stale_bytes(), 0);
    w.append(&r2).unwrap();
    assert_eq!(w.stale_bytes(), r1.len() as u64);
    let t = w.tombstone("k").unwrap();
    w.append(&t).unwrap();
    assert_eq!(w.stale_bytes(), (r1.len() + r2.len() + t.len()) as u64);
}

#[test]
fn append_refuses_bytes_that_are_not_one_record() {
    let mut w = KvStoreWriter::new(1);
    assert!(matches!(w.append(b"garbage"), Err(KvsError::InvalidRecord)));
    let mut two = encode_command(CommandKind::Put, "a", "b");
    two.extend_from_slice(&encode_command(CommandKind::Put, "c", "d"));
    assert!(matches!(w.append(&two), Err(KvsError::InvalidRecord)));
    assert!(w.lookup("a").is_none());
}

#[test]
fn replay_stops_at_a_torn_record() {
    let mut seg = encode_command(CommandKind::Put, "k1", "v1");
    let whole = seg.len();
    let torn = encode_command(CommandKind::Put, "k2", "v2");
    seg.extend_from_slice(&torn[..torn.len() - 3]);
    let mut w = KvStoreWriter::new(2);
    assert_eq!(w.replay(1, &seg), whole);
    assert!(w.lookup("k1").is_some());
    assert!(w.lookup("k2").is_none());
}

#[test]
fn replay_applies_later_generations_last() {
    let mut files = BTreeMap::new();
    files.insert(1u64, encode_command(CommandKind::Put, "k", "old"));
    let mut second = encode_command(CommandKind::Put, "k", "new");
    second.extend_from_slice(&encode_command(CommandKind::Put, "gone", "x"));
    second.extend_from_slice(&encode_command(CommandKind::Remove, "gone", ""));
    second.extend_from_slice(&encode_command(CommandKind::Remove, "never", ""));
    files.insert(2u64, second);
    let s = Store::open(files);
    assert_eq!(s.writer.active_generation(), 3);
    assert_eq!(s.get("k"), Some("new".to_string()));
    assert_eq!(s.get("gone"), None);
}

#[test]
fn read_value_checks_the_key() {
    let rec = encode_command(CommandKind::Put, "k", "v");
    assert_eq!(read_value("k", &rec).unwrap(), "v");
    assert!(matches!(read_value("other", &rec), Err(KvsError::InvalidRecord)));
    let tomb = encode_command(CommandKind::Remove, "k", "");
    assert!(matches!(read_value("k", &tomb), Err(KvsError::InvalidRecord)));
}
