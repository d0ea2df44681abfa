use kvs::codec::{frame_record, record_spans};
use kvs::Span;

#[test]
fn record_gets_newline() {
    assert_eq!(frame_record(&b"{\"a\":1}".to_vec()), Some(b"{\"a\":1}\n".to_vec()));
    assert_eq!(frame_record(&Vec::new()), Some(b"\n".to_vec()));
}

#[test]
fn record_with_newline_is_refused() {
    assert_eq!(frame_record(&b"a\nb".to_vec()), None);
}

#[test]
fn spans_of_complete_records() {
    let bytes = b"ab\ncde\n\n".to_vec();
    assert_eq!(
        record_spans(&bytes),
        vec![
            Span { pos: 0, len: 3 },
            Span { pos: 3, len: 4 },
            Span { pos: 7, len: 1 }
        ]
    );
    assert_eq!(record_spans(&Vec::new()), Vec::<Span>::new());
}

#[test]
fn torn_final_record_is_left_out() {
    let whole = b"one\ntwo\n".to_vec();
    let mut torn = whole.clone();
    torn.extend_from_slice(b"thr");
    assert_eq!(record_spans(&torn), record_spans(&whole));
    assert_eq!(record_spans(&torn).len(), 2);
}
