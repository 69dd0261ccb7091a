use utrace_host::decoder::{Occurrence, StreamDecoder};
use utrace_host::trace_point::{TracePointKind, TracePointMeta, TracePointTable};

fn meta(wire_id: u8, logical_id: u64, name: &str, kind: TracePointKind) -> TracePointMeta {
    TracePointMeta {
        wire_id,
        logical_id,
        name: Some(name.as_bytes().to_vec()),
        kind,
        location: b"src/main.rs:1".to_vec(),
        comment: None,
    }
}

fn frame_bytes(id: u8, delta: u64) -> Vec<u8> {
    let mut out = vec![id];
    let mut d = delta;
    loop {
        let g = (d & 0x7f) as u8;
        d >>= 7;
        if d == 0 {
            out.push(g);
            break;
        } else {
            out.push(g | 0x80);
        }
    }
    out
}

fn two_point_table() -> TracePointTable {
    TracePointTable::build(vec![
        meta(1, 10, "foo", TracePointKind::Enter),
        meta(2, 10, "foo", TracePointKind::Exit),
    ])
    .unwrap()
}

#[test]
fn decodes_single_frame() {
    let table = two_point_table();
    let mut dec = StreamDecoder::new();
    let out = dec.push(&table, &frame_bytes(1, 100));
    assert_eq!(out, vec![Occurrence::Point { timestamp: 100, wire_id: 1 }]);
}

#[test]
fn timestamps_accumulate_deltas() {
    let table = two_point_table();
    let mut dec = StreamDecoder::new();
    let mut bytes = frame_bytes(1, 100);
    bytes.extend(frame_bytes(2, 50));
    let out = dec.push(&table, &bytes);
    assert_eq!(
        out,
        vec![
            Occurrence::Point { timestamp: 100, wire_id: 1 },
            Occurrence::Point { timestamp: 150, wire_id: 2 },
        ]
    );
}

#[test]
fn chunking_does_not_change_output() {
    let table = two_point_table();
    let mut bytes = frame_bytes(1, 300);
    bytes.extend(frame_bytes(2, 5));
    bytes.extend(frame_bytes(1, 1000));
    bytes.extend(frame_bytes(2, 0));

    let mut whole = StreamDecoder::new();
    let expected = whole.push(&table, &bytes);
    assert_eq!(expected.len(), 4);

    // one byte at a time
    let mut dec = StreamDecoder::new();
    let mut got = Vec::new();
    for b in &bytes {
        got.extend(dec.push(&table, &[*b]));
    }
    assert_eq!(got, expected);

    // every split point of the stream
    for cut in 0..=bytes.len() {
        let mut dec2 = StreamDecoder::new();
        let mut got2 = dec2.push(&table, &bytes[..cut]);
        got2.extend(dec2.push(&table, &bytes[cut..]));
        assert_eq!(got2, expected);
    }
}

#[test]
fn unknown_id_frame_is_dropped() {
    let table = two_point_table();
    let mut bytes = frame_bytes(1, 100);
    bytes.extend(frame_bytes(77, 999)); // id 77 is not in the table
    bytes.extend(frame_bytes(2, 50));
    let mut dec = StreamDecoder::new();
    let out = dec.push(&table, &bytes);
    assert_eq!(
        out,
        vec![
            Occurrence::Point { timestamp: 100, wire_id: 1 },
            Occurrence::Point { timestamp: 150, wire_id: 2 },
        ]
    );
    assert_eq!(dec.dropped, 1);
}

#[test]
fn unknown_id_in_later_chunk_still_recovers() {
    let table = two_point_table();
    let mut dec = StreamDecoder::new();
    let first = dec.push(&table, &frame_bytes(1, 7));
    assert_eq!(first.len(), 1);
    // the unknown frame arrives split across two chunks
    let bad = frame_bytes(200, 1 << 20);
    let out = dec.push(&table, &bad[..2]);
    assert!(out.is_empty());
    let out = dec.push(&table, &bad[2..]);
    assert!(out.is_empty());
    let again = dec.push(&table, &frame_bytes(2, 3));
    assert_eq!(again, vec![Occurrence::Point { timestamp: 10, wire_id: 2 }]);
}

#[test]
fn marker_resets_counter() {
    let table = two_point_table();
    let mut dec = StreamDecoder::new();
    let mut bytes = frame_bytes(1, 500);
    bytes.push(0); // stream-control marker
    bytes.extend(frame_bytes(1, 5));
    let out = dec.push(&table, &bytes);
    assert_eq!(
        out,
        vec![
            Occurrence::Point { timestamp: 500, wire_id: 1 },
            Occurrence::Marker,
            Occurrence::Point { timestamp: 5, wire_id: 1 },
        ]
    );
}

#[test]
fn overlong_delta_is_dropped_and_decoding_resumes() {
    let table = two_point_table();
    let mut dec = StreamDecoder::new();
    let mut bytes = vec![1u8];
    for _ in 0..12 {
        bytes.push(0x80); // more than ten carrier bytes: malformed
    }
    bytes.push(0x01); // terminator of the malformed delta
    bytes.extend(frame_bytes(2, 42));
    let out = dec.push(&table, &bytes);
    assert_eq!(out, vec![Occurrence::Point { timestamp: 42, wire_id: 2 }]);
    assert_eq!(dec.dropped, 1);
}
