use utrace_host::decoder::{Occurrence, StreamDecoder};
use utrace_host::engine::{CorrelationEngine, Store};
use utrace_host::render::{render_arrow_line, render_event_line, render_footer, render_header};
use utrace_host::trace_point::{TracePointKind, TracePointMeta, TracePointTable};

fn tp(wire_id: u8, logical_id: u64, name: &str, kind: TracePointKind) -> TracePointMeta {
    TracePointMeta {
        wire_id,
        logical_id,
        name: Some(name.as_bytes().to_vec()),
        kind,
        location: b"fw/src/main.rs:42".to_vec(),
        comment: None,
    }
}

fn enc_frame(id: u8, delta: u64) -> Vec<u8> {
    let mut out = vec![id];
    let mut d = delta;
    loop {
        let g = (d & 0x7f) as u8;
        d >>= 7;
        if d == 0 {
            out.push(g);
            break;
        } else {
            out.push(g | 0x80);
        }
    }
    out
}

#[test]
fn enter_exit_roundtrip_to_file_bytes() {
    // logical id 1, name "foo": an enter tracepoint and an exit tracepoint
    let table = TracePointTable::build(vec![
        tp(1, 1, "foo", TracePointKind::Enter),
        tp(2, 1, "foo", TracePointKind::Exit),
    ])
    .unwrap();

    // wire stream: Enter at t=100, Exit at t=150
    let mut bytes = enc_frame(1, 100);
    bytes.extend(enc_frame(2, 50));

    let mut dec = StreamDecoder::new();
    let occs = dec.push(&table, &bytes);
    assert_eq!(occs.len(), 2);

    let mut engine = CorrelationEngine::new(Store::new(&table));
    let mut file = render_header();
    let mut arrow_ids = Vec::new();
    let mut lines = Vec::new();
    for occ in &occs {
        if let Occurrence::Point { timestamp, wire_id } = occ {
            let meta = table.get(*wire_id).unwrap().clone();
            let out = engine.step(&meta, *timestamp);
            let line = render_event_line(&out.primary);
            lines.push(String::from_utf8(line.clone()).unwrap());
            file.extend(line);
            if let Some(arrow) = out.arrow {
                arrow_ids.push(arrow.id);
                let aline = render_arrow_line(&arrow);
                lines.push(String::from_utf8(aline.clone()).unwrap());
                file.extend(aline);
            }
        }
    }
    file.extend(render_footer());

    assert_eq!(
        lines,
        vec![
            "{\"name\":\"foo\",\"cat\":\"Enter\",\"ph\":\"B\",\"pid\":1,\"tid\":1,\"ts\":100},\n",
            "{\"name\":\"foo\",\"cat\":\"foo\",\"ph\":\"s\",\"pid\":1,\"tid\":1,\"ts\":100,\"id\":0,\"bp\":\"e\"},\n",
            "{\"name\":\"foo\",\"cat\":\"Exit\",\"ph\":\"E\",\"pid\":1,\"tid\":1,\"ts\":150},\n",
            "{\"name\":\"foo\",\"cat\":\"foo\",\"ph\":\"t\",\"pid\":1,\"tid\":1,\"ts\":150,\"id\":0,\"bp\":\"e\"},\n",
        ]
    );
    // begin and end share one correlation id
    assert_eq!(arrow_ids, vec![0, 0]);
    // the file is a bracketed array: starts with `[`, ends with `]`
    assert_eq!(file.first(), Some(&b'['));
    assert_eq!(file.last(), Some(&b']'));
}

#[test]
fn names_are_json_escaped() {
    let table = TracePointTable::build(vec![TracePointMeta {
        wire_id: 1,
        logical_id: 1,
        name: Some(b"a\"b\\c\nd".to_vec()),
        kind: TracePointKind::Instant,
        location: b"x".to_vec(),
        comment: None,
    }])
    .unwrap();
    let meta = table.get(1).unwrap().clone();
    let mut engine = CorrelationEngine::new(Store::new(&table));
    let out = engine.step(&meta, 3);
    let line = String::from_utf8(render_event_line(&out.primary)).unwrap();
    assert_eq!(
        line,
        "{\"name\":\"a\\\"b\\\\c\\u000ad\",\"cat\":\"Instant\",\"ph\":\"i\",\"pid\":1,\"tid\":1,\"ts\":3},\n"
    );
}

#[test]
fn large_timestamps_render_in_decimal() {
    let table = TracePointTable::build(vec![tp(1, 1, "foo", TracePointKind::Enter)]).unwrap();
    let meta = table.get(1).unwrap().clone();
    let mut engine = CorrelationEngine::new(Store::new(&table));
    let out = engine.step(&meta, 18_446_744_073_709_551_615);
    let line = String::from_utf8(render_event_line(&out.primary)).unwrap();
    assert!(line.contains("\"ts\":18446744073709551615}"));
}
