use kvs::entry::value_of_record;
use kvs::{
    CommandPos, Engine, GenerationLog, KvsError, LogEntry, LoggedEntry, Span, COMPACTION_THRESHOLD,
};

fn s(x: &str) -> String {
    x.to_string()
}

// An engine opened on one empty log file, writing to the generation after it.
fn engine_writing_to(generation: u64) -> Engine {
    let logs = vec![GenerationLog { generation: generation - 1, records: vec![] }];
    Engine::open(&logs).unwrap()
}

#[test]
fn set_points_key_at_record() {
    let mut e = engine_writing_to(1);
    assert!(!e.record_set(s("k"), 0, 20));
    assert_eq!(e.lookup(&s("k")), Some(CommandPos { generation: 1, pos: 0, len: 20 }));
    assert_eq!(e.lookup(&s("other")), None);
    assert_eq!(e.uncompacted(), 0);
}

#[test]
fn overwrite_counts_stale_bytes() {
    let mut e = engine_writing_to(3);
    e.record_set(s("k"), 0, 20);
    e.record_set(s("k"), 20, 25);
    assert_eq!(e.lookup(&s("k")), Some(CommandPos { generation: 3, pos: 20, len: 25 }));
    assert_eq!(e.uncompacted(), 20);
}

#[test]
fn remove_counts_stale_bytes_and_reports_missing_key() {
    let mut e = engine_writing_to(1);
    e.record_set(s("k"), 0, 20);
    assert!(e.check_remove(&s("k")).is_ok());
    assert!(e.record_remove(&s("k")).is_ok());
    assert_eq!(e.lookup(&s("k")), None);
    assert_eq!(e.uncompacted(), 20);
    assert!(matches!(e.check_remove(&s("k")), Err(KvsError::KeyNotFound)));
    assert!(matches!(e.record_remove(&s("k")), Err(KvsError::KeyNotFound)));
    assert_eq!(e.uncompacted(), 20);
}

#[test]
fn compaction_due_past_threshold() {
    let mut e = engine_writing_to(1);
    e.record_set(s("k"), 0, COMPACTION_THRESHOLD);
    assert!(!e.record_set(s("k"), COMPACTION_THRESHOLD, 10));
    assert!(!e.needs_compaction());
    assert!(e.record_set(s("k"), COMPACTION_THRESHOLD + 10, 10));
    assert!(e.needs_compaction());
    assert_eq!(e.uncompacted(), COMPACTION_THRESHOLD + 10);
}

#[test]
fn stale_count_holds_at_maximum() {
    let mut e = engine_writing_to(1);
    e.record_set(s("a"), 0, u64::MAX);
    e.record_set(s("a"), 0, 1);
    e.record_set(s("a"), 0, 1);
    assert_eq!(e.uncompacted(), u64::MAX);
}

#[test]
fn compaction_relocates_live_records() {
    let mut e = engine_writing_to(4);
    e.record_set(s("a"), 0, 10);
    e.record_set(s("b"), 10, 7);
    e.record_set(s("a"), 17, 12);
    e.record_set(s("c"), 29, 5);
    e.record_remove(&s("c")).unwrap();
    assert_eq!(
        e.live_records(),
        vec![
            CommandPos { generation: 4, pos: 17, len: 12 },
            CommandPos { generation: 4, pos: 10, len: 7 }
        ]
    );
    assert_eq!(e.start_compaction(), Some(5));
    assert_eq!(e.current_generation(), 6);
    assert_eq!(e.finish_compaction(5), Some(vec![3, 4]));
    assert_eq!(e.lookup(&s("a")), Some(CommandPos { generation: 5, pos: 0, len: 12 }));
    assert_eq!(e.lookup(&s("b")), Some(CommandPos { generation: 5, pos: 12, len: 7 }));
    assert_eq!(e.lookup(&s("c")), None);
    assert_eq!(e.uncompacted(), 0);
}

#[test]
fn compaction_refused_when_generations_run_out() {
    let mut e = engine_writing_to(u64::MAX - 1);
    assert_eq!(e.start_compaction(), None);
    assert_eq!(e.current_generation(), u64::MAX - 1);
}

#[test]
fn compaction_refused_when_copies_overflow_offsets() {
    let mut e = engine_writing_to(1);
    e.record_set(s("a"), 0, u64::MAX);
    e.record_set(s("b"), 0, 1);
    let cg = e.start_compaction().unwrap();
    assert!(e.finish_compaction(cg).is_none());
    assert_eq!(e.lookup(&s("a")), Some(CommandPos { generation: 1, pos: 0, len: u64::MAX }));
}

#[test]
fn open_replays_records_in_order() {
    let recs = vec![
        LoggedEntry { entry: LogEntry::set(s("a"), s("1")), span: Span { pos: 0, len: 5 } },
        LoggedEntry { entry: LogEntry::set(s("b"), s("2")), span: Span { pos: 5, len: 6 } },
        LoggedEntry { entry: LogEntry::remove(s("zz")), span: Span { pos: 11, len: 4 } },
        LoggedEntry { entry: LogEntry::set(s("a"), s("3")), span: Span { pos: 15, len: 7 } },
        LoggedEntry { entry: LogEntry::remove(s("b")), span: Span { pos: 22, len: 4 } },
    ];
    let e = Engine::open(&vec![GenerationLog { generation: 2, records: recs }]).unwrap();
    assert_eq!(e.lookup(&s("a")), Some(CommandPos { generation: 2, pos: 15, len: 7 }));
    assert_eq!(e.lookup(&s("b")), None);
    assert_eq!(e.uncompacted(), 11);
    assert_eq!(e.current_generation(), 3);
}

#[test]
fn later_generations_win_on_open() {
    let old = vec![LoggedEntry { entry: LogEntry::set(s("a"), s("1")), span: Span { pos: 0, len: 9 } }];
    let new = vec![
        LoggedEntry { entry: LogEntry::set(s("a"), s("2")), span: Span { pos: 0, len: 9 } },
        LoggedEntry { entry: LogEntry::set(s("b"), s("3")), span: Span { pos: 9, len: 9 } },
    ];
    let logs = vec![
        GenerationLog { generation: 4, records: old },
        GenerationLog { generation: 7, records: new },
    ];
    let e = Engine::open(&logs).unwrap();
    assert_eq!(e.lookup(&s("a")), Some(CommandPos { generation: 7, pos: 0, len: 9 }));
    assert_eq!(e.lookup(&s("b")), Some(CommandPos { generation: 7, pos: 9, len: 9 }));
    assert_eq!(e.uncompacted(), 9);
    assert_eq!(e.current_generation(), 8);
}

#[test]
fn open_without_logs_starts_at_one() {
    let e = Engine::open(&vec![]).unwrap();
    assert_eq!(e.current_generation(), 1);
    assert_eq!(e.uncompacted(), 0);
    assert!(e.live_records().is_empty());
}

#[test]
fn open_refused_when_generations_run_out() {
    let logs = vec![GenerationLog { generation: u64::MAX, records: vec![] }];
    assert!(Engine::open(&logs).is_none());
}

#[test]
fn compaction_refuses_unknown_or_future_file() {
    let mut e = engine_writing_to(3);
    e.record_set(s("a"), 0, 4);
    assert!(e.finish_compaction(9).is_none());
    assert!(e.finish_compaction(1).is_none());
    assert_eq!(e.lookup(&s("a")), Some(CommandPos { generation: 3, pos: 0, len: 4 }));
    assert_eq!(e.finish_compaction(3), Some(vec![2]));
    assert_eq!(e.lookup(&s("a")), Some(CommandPos { generation: 3, pos: 0, len: 4 }));
}

#[test]
fn value_of_put_record() {
    assert_eq!(value_of_record(LogEntry::set(s("k"), s("v"))).unwrap(), s("v"));
}

#[test]
fn remove_record_under_index_is_an_error() {
    assert!(matches!(
        value_of_record(LogEntry::remove(s("k"))),
        Err(KvsError::UnexpectedCommandType)
    ));
}

#[test]
fn entry_key() {
    assert_eq!(LogEntry::set(s("k1"), s("v")).key(), &s("k1"));
    assert_eq!(LogEntry::remove(s("k2")).key(), &s("k2"));
}

#[test]
fn io_error_converts() {
    let e = KvsError::from(std::io::Error::new(std::io::ErrorKind::Other, "disk"));
    assert!(matches!(e, KvsError::IoError(_)));
}

#[test]
fn json_error_converts() {
    let err = serde_json::from_str::<u8>("x").unwrap_err();
    assert!(matches!(KvsError::from(err), KvsError::SerdeError(_)));
}

#[test]
fn live_records_in_key_order() {
    let mut e = engine_writing_to(1);
    e.record_set(s("pear"), 0, 3);
    e.record_set(s("apple"), 3, 4);
    e.record_set(s("Zebra"), 7, 5);
    e.record_set(s("applesauce"), 12, 6);
    e.record_set(s("\u{e9}t\u{e9}"), 18, 7);
    let order: Vec<u64> = e.live_records().iter().map(|p| p.pos).collect();
    assert_eq!(order, vec![7, 3, 12, 0, 18]);
    let cg = e.start_compaction().unwrap();
    e.finish_compaction(cg).unwrap();
    assert_eq!(e.lookup(&s("Zebra")), Some(CommandPos { generation: cg, pos: 0, len: 5 }));
    assert_eq!(e.lookup(&s("apple")), Some(CommandPos { generation: cg, pos: 5, len: 4 }));
    assert_eq!(e.lookup(&s("pear")), Some(CommandPos { generation: cg, pos: 15, len: 3 }));
}
