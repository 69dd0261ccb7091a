use utrace_host::decoder::Occurrence;
use utrace_host::engine::{ArrowPhase, CorrelationEngine, DrawingType, EventPhase, Store};
use utrace_host::trace_point::{StartupError, TracePointKind, TracePointMeta, TracePointTable};

fn named(wire_id: u8, logical_id: u64, name: &str, kind: TracePointKind) -> TracePointMeta {
    TracePointMeta {
        wire_id,
        logical_id,
        name: Some(name.as_bytes().to_vec()),
        kind,
        location: b"lib.rs:10".to_vec(),
        comment: None,
    }
}

fn sync_pair_table() -> TracePointTable {
    TracePointTable::build(vec![
        named(1, 10, "foo", TracePointKind::Enter),
        named(2, 10, "foo", TracePointKind::Exit),
    ])
    .unwrap()
}

#[test]
fn empty_metadata_is_fatal() {
    assert_eq!(TracePointTable::build(vec![]).unwrap_err(), StartupError::EmptyMetadata);
}

#[test]
fn reserved_id_is_fatal() {
    let r = TracePointTable::build(vec![named(0, 1, "foo", TracePointKind::Enter)]);
    assert_eq!(r.unwrap_err(), StartupError::ReservedId);
}

#[test]
fn id_collision_is_fatal() {
    let r = TracePointTable::build(vec![
        named(5, 1, "foo", TracePointKind::Enter),
        named(5, 2, "bar", TracePointKind::Exit),
    ]);
    assert_eq!(r.unwrap_err(), StartupError::IdCollision);
}

#[test]
fn async_only_id_is_never_span() {
    let table = TracePointTable::build(vec![
        named(1, 7, "job", TracePointKind::AsyncEnter),
        named(2, 7, "job", TracePointKind::AsyncExit),
        named(3, 8, "fun", TracePointKind::Enter),
        named(4, 8, "fun", TracePointKind::Exit),
    ])
    .unwrap();
    let store = Store::new(&table);
    assert_eq!(store.drawing_type(7), DrawingType::Instant);
    assert_eq!(store.drawing_type(8), DrawingType::Span);
    // an id the metadata never mentions is an instant as well
    assert_eq!(store.drawing_type(999), DrawingType::Instant);
}

#[test]
fn poll_kinds_make_an_id_a_span() {
    let table = TracePointTable::build(vec![
        named(1, 7, "job", TracePointKind::AsyncEnter),
        named(2, 7, "job", TracePointKind::AsyncExit),
        named(3, 7, "job", TracePointKind::AsyncPollEnter),
        named(4, 7, "job", TracePointKind::AsyncPollExit),
    ])
    .unwrap();
    let store = Store::new(&table);
    assert_eq!(store.drawing_type(7), DrawingType::Span);
}

#[test]
fn alternating_pairs_use_distinct_ids() {
    let table = sync_pair_table();
    let enter = table.get(1).unwrap().clone();
    let exit = table.get(2).unwrap().clone();
    let mut engine = CorrelationEngine::new(Store::new(&table));

    let mut pair_ids = Vec::new();
    for k in 0..3u64 {
        let e1 = engine.step(&enter, 100 + 10 * k);
        let a1 = e1.arrow.expect("enter emits a linking record");
        assert_eq!(a1.phase, ArrowPhase::Start);
        assert_eq!(e1.primary.phase, EventPhase::SpanBegin);

        let e2 = engine.step(&exit, 105 + 10 * k);
        let a2 = e2.arrow.expect("exit emits a linking record");
        assert_eq!(a2.phase, ArrowPhase::Step);
        assert_eq!(e2.primary.phase, EventPhase::SpanEnd);

        // the pair shares one correlation id
        assert_eq!(a1.id, a2.id);
        pair_ids.push(a1.id);
    }
    // and no two pairs share one
    assert_eq!(pair_ids, vec![0, 1, 2]);
}

#[test]
fn async_polls_share_the_creation_id() {
    let table = TracePointTable::build(vec![
        named(1, 7, "job", TracePointKind::AsyncEnter),
        named(2, 7, "job", TracePointKind::AsyncExit),
        named(3, 7, "job", TracePointKind::AsyncPollEnter),
        named(4, 7, "job", TracePointKind::AsyncPollExit),
    ])
    .unwrap();
    let creation = table.get(1).unwrap().clone();
    let drop = table.get(2).unwrap().clone();
    let poll_enter = table.get(3).unwrap().clone();
    let poll_exit = table.get(4).unwrap().clone();
    let mut engine = CorrelationEngine::new(Store::new(&table));

    let c = engine.step(&creation, 10);
    // async creation renders as an instant, never as a span begin
    assert_eq!(c.primary.phase, EventPhase::Instant);
    let cid = c.arrow.unwrap().id;

    for k in 0..3u64 {
        let pe = engine.step(&poll_enter, 20 + 10 * k);
        let a = pe.arrow.expect("poll-enter emits a linking record");
        assert_eq!(a.phase, ArrowPhase::Step);
        assert_eq!(a.id, cid, "every poll links back to the creation id");
        assert_eq!(pe.primary.phase, EventPhase::SpanBegin);

        let px = engine.step(&poll_exit, 25 + 10 * k);
        let a = px.arrow.expect("poll-exit emits a linking record");
        assert_eq!(a.phase, ArrowPhase::Step);
        assert_eq!(a.id, cid, "a poll-exit does not close the flow");
        assert_eq!(px.primary.phase, EventPhase::SpanEnd);
    }

    // only the drop closes the entry, still under the creation id
    let d = engine.step(&drop, 100);
    assert_eq!(d.primary.phase, EventPhase::Instant);
    assert_eq!(d.arrow.unwrap().id, cid);

    // after the drop the flow is gone: a new poll opens a fresh interval
    let reopened = engine.step(&poll_enter, 110).arrow.unwrap();
    assert_eq!(reopened.phase, ArrowPhase::Start);
    assert_ne!(reopened.id, cid);
}

#[test]
fn orphan_exit_still_emits_a_primary_event() {
    let table = sync_pair_table();
    let exit = table.get(2).unwrap().clone();
    let mut engine = CorrelationEngine::new(Store::new(&table));

    let out = engine.step(&exit, 77);
    assert_eq!(out.primary.name, b"foo".to_vec());
    assert_eq!(out.primary.cat, b"Exit".to_vec());
    assert_eq!(out.primary.ts, 77);
    let a = out.arrow.expect("an orphan exit still links");
    assert_eq!(a.phase, ArrowPhase::Step);
    assert_eq!(a.id, 0);

    // the orphan consumed its fallback id: a following pair gets a new one
    let enter = table.get(1).unwrap().clone();
    let opened = engine.step(&enter, 80);
    assert_eq!(opened.arrow.unwrap().id, 1);
}

#[test]
fn nameless_occurrence_is_emitted_but_never_correlated() {
    let table = TracePointTable::build(vec![TracePointMeta {
        wire_id: 9,
        logical_id: 3,
        name: None,
        kind: TracePointKind::Enter,
        location: b"lib.rs:3".to_vec(),
        comment: Some(b"anonymous".to_vec()),
    }])
    .unwrap();
    let m = table.get(9).unwrap().clone();
    let mut engine = CorrelationEngine::new(Store::new(&table));
    let out = engine.step(&m, 5);
    assert_eq!(out.primary.name, Vec::<u8>::new());
    assert_eq!(out.primary.cat, b"Enter".to_vec());
    assert!(out.arrow.is_none());
}

#[test]
fn markers_and_unknown_ids_emit_nothing() {
    let table = sync_pair_table();
    let mut engine = CorrelationEngine::new(Store::new(&table));
    assert!(engine.handle_occurrence(&table, Occurrence::Marker).is_none());
    assert!(engine
        .handle_occurrence(&table, Occurrence::Point { timestamp: 1, wire_id: 99 })
        .is_none());
    let out = engine
        .handle_occurrence(&table, Occurrence::Point { timestamp: 1, wire_id: 1 })
        .expect("a known id yields its events");
    assert_eq!(out.primary.name, b"foo".to_vec());
}
