use std::collections::BTreeMap;

use kvs::catalog::{log_file_name, sorted_generation_list};
use kvs::codec::{frame_record, record_spans};
use kvs::entry::value_of_record;
use kvs::{Engine, GenerationLog, KvsError, LogEntry, LoggedEntry};

// A store whose log files are byte vectors, driven through the library the
// way the command-line program drives it over real files.
struct MemStore {
    files: BTreeMap<u64, Vec<u8>>,
    engine: Engine,
}

fn encode(entry: &LogEntry) -> Vec<u8> {
    match entry {
        LogEntry::Put { key, value } => format!("P\t{key}\t{value}").into_bytes(),
        LogEntry::Remove { key } => format!("R\t{key}").into_bytes(),
    }
}

fn decode(body: &[u8]) -> LogEntry {
    let text = String::from_utf8(body.to_vec()).unwrap();
    let parts: Vec<&str> = text.split('\t').collect();
    match parts[0] {
        "P" => LogEntry::set(parts[1].to_string(), parts[2].to_string()),
        _ => LogEntry::remove(parts[1].to_string()),
    }
}

impl MemStore {
    fn open(mut files: BTreeMap<u64, Vec<u8>>) -> MemStore {
        let names: Vec<Vec<u8>> = files.keys().map(|g| log_file_name(*g)).collect();
        let gens = sorted_generation_list(&names);
        let mut logs = Vec::new();
        for g in &gens {
            let bytes = &files[g];
            let records: Vec<LoggedEntry> = record_spans(bytes)
                .into_iter()
                .map(|span| {
                    let body = &bytes[span.pos as usize..(span.pos + span.len - 1) as usize];
                    LoggedEntry { entry: decode(body), span }
                })
                .collect();
            logs.push(GenerationLog { generation: *g, records });
        }
        let engine = Engine::open(&logs).unwrap();
        files.insert(engine.current_generation(), Vec::new());
        MemStore { files, engine }
    }

    fn append(&mut self, entry: &LogEntry) -> (u64, u64) {
        let record = frame_record(&encode(entry)).unwrap();
        let file = self.files.get_mut(&self.engine.current_generation()).unwrap();
        let pos = file.len() as u64;
        file.extend_from_slice(&record);
        (pos, record.len() as u64)
    }

    fn set(&mut self, key: &str, value: &str) {
        let entry = LogEntry::set(key.to_string(), value.to_string());
        let (pos, len) = self.append(&entry);
        if self.engine.record_set(key.to_string(), pos, len) {
            self.compact();
        }
    }

    fn get(&self, key: &str) -> Option<String> {
        let p = self.engine.lookup(&key.to_string())?;
        let bytes = &self.files[&p.generation];
        let body = &bytes[p.pos as usize..(p.pos + p.len - 1) as usize];
        Some(value_of_record(decode(body)).unwrap())
    }

    fn remove(&mut self, key: &str) -> Result<(), KvsError> {
        self.engine.check_remove(&key.to_string())?;
        self.append(&LogEntry::remove(key.to_string()));
        self.engine.record_remove(&key.to_string())
    }

    fn compact(&mut self) {
        let cg = self.engine.start_compaction().unwrap();
        self.files.insert(self.engine.current_generation(), Vec::new());
        let mut out = Vec::new();
        for p in self.engine.live_records() {
            let src = &self.files[&p.generation];
            out.extend_from_slice(&src[p.pos as usize..(p.pos + p.len) as usize]);
        }
        self.files.insert(cg, out);
        for g in self.engine.finish_compaction(cg).unwrap() {
            self.files.remove(&g);
        }
    }
}

fn fresh() -> MemStore {
    MemStore::open(BTreeMap::new())
}

#[test]
fn round_trip() {
    let mut st = fresh();
    for (k, v) in [("a", "1"), ("b", "2"), ("a", "3"), ("", "empty key"), ("c", "")] {
        st.set(k, v);
        assert_eq!(st.get(k), Some(v.to_string()));
    }
}

#[test]
fn overwrite() {
    let mut st = fresh();
    st.set("k", "a");
    st.set("k", "b");
    assert_eq!(st.get("k"), Some("b".to_string()));
}

#[test]
fn remove_semantics() {
    let mut st = fresh();
    st.set("k", "v");
    st.remove("k").unwrap();
    assert_eq!(st.get("k"), None);
    assert!(matches!(st.remove("k"), Err(KvsError::KeyNotFound)));
}

#[test]
fn remove_of_absent_key_writes_nothing() {
    let mut st = fresh();
    assert!(matches!(st.remove("nope"), Err(KvsError::KeyNotFound)));
    assert!(st.files.values().all(|f| f.is_empty()));
}

#[test]
fn persistence_across_reopen() {
    let mut st = fresh();
    st.set("a", "1");
    st.set("b", "2");
    st.set("a", "3");
    st.remove("b").unwrap();
    st.set("c", "4");
    let st2 = MemStore::open(st.files.clone());
    for k in ["a", "b", "c", "d"] {
        assert_eq!(st2.get(k), st.get(k));
    }
    assert_eq!(st2.engine.uncompacted(), st.engine.uncompacted());
    assert_eq!(st2.engine.current_generation(), st.engine.current_generation() + 1);
}

#[test]
fn compaction_transparency() {
    let mut st = fresh();
    let big = "x".repeat(4096);
    let mut compacted = false;
    for i in 0..400 {
        let key = format!("key{}", i % 5);
        let before = st.engine.current_generation();
        st.set(&key, &format!("{big}{i}"));
        compacted |= st.engine.current_generation() != before;
    }
    assert!(compacted);
    for i in 395..400 {
        let key = format!("key{}", i % 5);
        assert_eq!(st.get(&key), Some(format!("{big}{i}")));
    }
    assert_eq!(st.get("key9"), None);
    let oldest = *st.files.keys().next().unwrap();
    assert!(oldest > 1);
    assert!(st.files.len() <= 3);
    let st2 = MemStore::open(st.files.clone());
    for i in 395..400 {
        let key = format!("key{}", i % 5);
        assert_eq!(st2.get(&key), Some(format!("{big}{i}")));
    }
}

#[test]
fn torn_tail_recovery() {
    let mut st = fresh();
    st.set("a", "1");
    st.set("b", "2");
    let g = st.engine.current_generation();
    let mut files = st.files.clone();
    let f = files.get_mut(&g).unwrap();
    let cut = f.len() - 3;
    f.truncate(cut);
    let st2 = MemStore::open(files);
    assert_eq!(st2.get("a"), Some("1".to_string()));
    assert_eq!(st2.get("b"), None);
}

#[test]
fn concrete_scenario() {
    let mut st = fresh();
    st.set("k1", "v1");
    st.set("k2", "v2");
    st.remove("k1").unwrap();
    assert_eq!(st.get("k1"), None);
    assert_eq!(st.get("k2"), Some("v2".to_string()));
    let st2 = MemStore::open(st.files.clone());
    assert_eq!(st2.get("k2"), Some("v2".to_string()));
    assert_eq!(st2.get("k1"), None);
}
