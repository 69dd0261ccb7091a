//! Stateful correlation of decoded occurrences into spans and instants.
//!
//! The engine consumes the occurrence stream in arrival order.  Every
//! occurrence yields exactly one primary event; named occurrences of the
//! enter/exit families additionally yield one linking (arrow) record.  An
//! enter of an open name continues it; an enter of a closed name opens it
//! under the next fresh correlation id.  Only a synchronous exit or an
//! async drop closes an open entry — a poll-exit ends one poll slice but
//! keeps the async flow open under its creation id until the drop.  An
//! orphan exit deliberately consumes a fresh correlation id (rather than
//! silently reusing the next one) so that no two intervals ever share an
//! id.

use vstd::prelude::*;

use crate::decoder::Occurrence;
use crate::trace_point::{MetaView, TracePointKind, TracePointMeta, TracePointTable};
use vstd::slice::slice_to_vec;

verus! {

/// Per-logical-id classification, derived once from the declared kinds.
#[derive(Clone, Copy, Debug, PartialEq, Eq, Structural)]
pub enum DrawingType {
    Span,
    Instant,
}

/// Whether some tracepoint of logical id `lid` has a kind outside the async
/// creation/drop pair: exactly then the id is classified `Span`.
pub open spec fn spec_is_span(tbl: Map<u8, MetaView>, lid: u64) -> bool {
    exists|id: u8|
        tbl.contains_key(id) && #[trigger] tbl[id].logical_id == lid
            && !tbl[id].kind.is_async_boundary()
}

/// The per-id Span/Instant classification of a run, built once from the
/// metadata table and immutable afterwards.
pub struct Store {
    span_ids: Vec<u64>,
}

impl Store {
    /// Logical ids classified `Span`.
    pub closed spec fn spec_span_ids(self) -> Set<u64> {
        self.span_ids@.to_set()
    }

    /// Classification rule: an id is a span exactly if any of its declared
    /// occurrence kinds lies outside the async creation/drop pair; an id
    /// seen only as `AsyncEnter`/`AsyncExit` stays an instant.
    pub fn new(table: &TracePointTable) -> (s: Store)
        requires
            table.wf(),
        ensures
            forall|lid: u64| s.spec_span_ids().contains(lid) == spec_is_span(table@, lid),
    {
        let mut span_ids: Vec<u64> = Vec::new();
        let mut i: usize = 0;
        while i < 256
            invariant
                i <= 256,
                table.wf(),
                forall|lid: u64|
                    span_ids@.contains(lid) == (exists|id: u8|
                        id < i && table@.contains_key(id) && #[trigger] table@[id].logical_id == lid
                            && !table@[id].kind.is_async_boundary()),
            decreases 256 - i,
        {
            let id = i as u8;
            let ghost pre = span_ids@;
            match table.get(id) {
                Some(m) => {
                    if !m.kind.async_boundary() && !contains_u64(&span_ids, m.logical_id) {
                        let ghost lid0 = m.logical_id;
                        span_ids.push(m.logical_id);
                        proof {
                            assert forall|x: u64| #[trigger]
                                span_ids@.contains(x) == (pre.contains(x) || x == lid0) by {
                                if span_ids@.contains(x) {
                                    let k = choose|k: int|
                                        0 <= k < span_ids@.len() && span_ids@[k] == x;
                                    if k < pre.len() {
                                        assert(pre[k] == x);
                                    }
                                }
                                if pre.contains(x) {
                                    let k = choose|k: int| 0 <= k < pre.len() && pre[k] == x;
                                    assert(span_ids@[k] == x);
                                }
                                if x == lid0 {
                                    assert(span_ids@[pre.len() as int] == x);
                                }
                            };
                        }
                    }
                },
                None => {},
            }
            proof {
                assert forall|lid: u64|
                    span_ids@.contains(lid) == (exists|id2: u8|
                        id2 < i + 1 && table@.contains_key(id2)
                            && #[trigger] table@[id2].logical_id == lid
                            && !table@[id2].kind.is_async_boundary()) by {
                    if span_ids@.contains(lid) {
                        if pre.contains(lid) {
                            let w = choose|id2: u8|
                                id2 < i && table@.contains_key(id2)
                                    && #[trigger] table@[id2].logical_id == lid
                                    && !table@[id2].kind.is_async_boundary();
                            assert(w < i + 1 && table@.contains_key(w) && table@[w].logical_id
                                == lid && !table@[w].kind.is_async_boundary());
                        } else {
                            assert(table@.contains_key(i as u8) && table@[i as u8].logical_id == lid
                                && !table@[i as u8].kind.is_async_boundary() && (i as u8) < i + 1);
                        }
                    }
                };
            }
            i += 1;
        }
        proof {
            assert forall|lid: u64|
                span_ids@.contains(lid) == spec_is_span(table@, lid) by {
                if spec_is_span(table@, lid) {
                    let w = choose|id: u8|
                        table@.contains_key(id) && #[trigger] table@[id].logical_id == lid
                            && !table@[id].kind.is_async_boundary();
                    assert(w < 256);
                }
            };
        }
        Store { span_ids }
    }

    /// The classification of one logical id; ids the table never mentions
    /// with a non-async kind are instants.
    pub fn drawing_type(&self, lid: u64) -> (r: DrawingType)
        ensures
            (r == DrawingType::Span) == self.spec_span_ids().contains(lid),
    {
        if contains_u64(&self.span_ids, lid) {
            DrawingType::Span
        } else {
            DrawingType::Instant
        }
    }
}

fn contains_u64(v: &Vec<u64>, x: u64) -> (r: bool)
    ensures
        r == v@.contains(x),
{
    let mut i: usize = 0;
    while i < v.len()
        invariant
            i <= v.len(),
            forall|j: int| 0 <= j < i ==> v@[j] != x,
        decreases v.len() - i,
    {
        if v[i] == x {
            return true;
        }
        i += 1;
    }
    false
}

fn copy_bytes(v: &Vec<u8>) -> (r: Vec<u8>)
    ensures
        r@ == v@,
{
    slice_to_vec(v.as_slice())
}

/// Phase code of a primary event: `B`, `E` or `i` of the output convention.
#[derive(Clone, Copy, Debug, PartialEq, Eq, Structural)]
pub enum EventPhase {
    SpanBegin,
    SpanEnd,
    Instant,
}

/// Phase code of a linking record: `s` (start) or `t` (step).
#[derive(Clone, Copy, Debug, PartialEq, Eq, Structural)]
pub enum ArrowPhase {
    Start,
    Step,
}

/// Mathematical view of a primary event record.
pub struct EventModel {
    pub name: Seq<u8>,
    pub cat: Seq<u8>,
    pub phase: EventPhase,
    pub pid: u32,
    pub tid: u32,
    pub ts: u64,
}

/// One primary event: every occurrence emits exactly one of these.
#[derive(Debug)]
pub struct Event {
    pub name: Vec<u8>,
    pub cat: Vec<u8>,
    pub phase: EventPhase,
    pub pid: u32,
    pub tid: u32,
    pub ts: u64,
}

impl View for Event {
    type V = EventModel;

    open spec fn view(&self) -> EventModel {
        EventModel {
            name: self.name@,
            cat: self.cat@,
            phase: self.phase,
            pid: self.pid,
            tid: self.tid,
            ts: self.ts,
        }
    }
}

/// Mathematical view of a linking (arrow) record.
pub struct ArrowModel {
    pub name: Seq<u8>,
    pub cat: Seq<u8>,
    pub phase: ArrowPhase,
    pub pid: u32,
    pub tid: u32,
    pub ts: u64,
    pub id: u32,
}

/// One linking record, tying the events of one correlated interval together
/// under a shared correlation id.  Its binding point is always the enclosing
/// slice (`e` in the output convention).
#[derive(Debug)]
pub struct ArrowEvent {
    pub name: Vec<u8>,
    pub cat: Vec<u8>,
    pub phase: ArrowPhase,
    pub pid: u32,
    pub tid: u32,
    pub ts: u64,
    pub id: u32,
}

impl View for ArrowEvent {
    type V = ArrowModel;

    open spec fn view(&self) -> ArrowModel {
        ArrowModel {
            name: self.name@,
            cat: self.cat@,
            phase: self.phase,
            pid: self.pid,
            tid: self.tid,
            ts: self.ts,
            id: self.id,
        }
    }
}

pub open spec fn opt_arrow_view(o: Option<ArrowEvent>) -> Option<ArrowModel> {
    match o {
        Some(a) => Some(a@),
        None => None,
    }
}

/// What one occurrence emits: the primary event and the optional linking
/// record.
pub struct StepOutput {
    pub primary: Event,
    pub arrow: Option<ArrowEvent>,
}

/// State of one open interval: its latest timestamp and its stable
/// correlation id.
#[derive(Clone, Copy, Debug, PartialEq, Eq, Structural)]
pub struct TraceEntry {
    pub last_timestamp: u64,
    pub unique_id: u32,
}

/// The open entries as a map, read off the engine's association vectors
/// (later bindings shadow earlier ones; well-formed engines have no
/// duplicates).
pub open spec fn assoc_map(ns: Seq<Seq<u8>>, es: Seq<TraceEntry>) -> Map<Seq<u8>, TraceEntry>
    decreases ns.len(),
{
    if ns.len() == 0 || es.len() == 0 {
        Map::empty()
    } else {
        assoc_map(ns.drop_last(), es.drop_last()).insert(ns.last(), es.last())
    }
}

/// No name bound twice.
pub open spec fn uniq_names(ns: Seq<Seq<u8>>) -> bool {
    forall|i: int, j: int| 0 <= i < j < ns.len() ==> ns[i] != ns[j]
}

proof fn lemma_assoc_contains(ns: Seq<Seq<u8>>, es: Seq<TraceEntry>, k: Seq<u8>)
    requires
        ns.len() == es.len(),
    ensures
        assoc_map(ns, es).contains_key(k) == ns.contains(k),
    decreases ns.len(),
{
    if ns.len() > 0 {
        lemma_assoc_contains(ns.drop_last(), es.drop_last(), k);
        if ns.contains(k) {
            let i = choose|i: int| 0 <= i < ns.len() && ns[i] == k;
            if i < ns.len() - 1 {
                assert(ns.drop_last()[i] == k);
                assert(ns.drop_last().contains(k));
            }
        }
        if ns.drop_last().contains(k) {
            let i = choose|i: int| 0 <= i < ns.drop_last().len() && ns.drop_last()[i] == k;
            assert(ns[i] == k);
            assert(ns.contains(k));
        }
        if ns.last() == k {
            assert(ns.contains(k));
        }
    }
}

proof fn lemma_assoc_get(ns: Seq<Seq<u8>>, es: Seq<TraceEntry>, i: int)
    requires
        ns.len() == es.len(),
        0 <= i < ns.len(),
        uniq_names(ns),
    ensures
        assoc_map(ns, es).contains_key(ns[i]),
        assoc_map(ns, es)[ns[i]] == es[i],
    decreases ns.len(),
{
    if i == ns.len() - 1 {
    } else {
        assert(uniq_names(ns.drop_last())) by {
            assert forall|a: int, b: int|
                0 <= a < b < ns.drop_last().len() implies ns.drop_last()[a]
                != ns.drop_last()[b] by {
                assert(ns.drop_last()[a] == ns[a]);
                assert(ns.drop_last()[b] == ns[b]);
            };
        };
        lemma_assoc_get(ns.drop_last(), es.drop_last(), i);
        assert(ns.drop_last()[i] == ns[i]);
        assert(es.drop_last()[i] == es[i]);
        assert(ns.last() != ns[i]);
    }
}

proof fn lemma_uniq_remove(ns: Seq<Seq<u8>>, i: int)
    requires
        0 <= i < ns.len(),
        uniq_names(ns),
    ensures
        uniq_names(ns.remove(i)),
        !ns.remove(i).contains(ns[i]),
{
    assert forall|a: int, b: int|
        0 <= a < b < ns.remove(i).len() implies ns.remove(i)[a] != ns.remove(i)[b] by {
        assert(ns.remove(i)[a] == if a < i {
            ns[a]
        } else {
            ns[a + 1]
        });
        assert(ns.remove(i)[b] == if b < i {
            ns[b]
        } else {
            ns[b + 1]
        });
    };
    if ns.remove(i).contains(ns[i]) {
        let j = choose|j: int| 0 <= j < ns.remove(i).len() && ns.remove(i)[j] == ns[i];
        assert(ns.remove(i)[j] == if j < i {
            ns[j]
        } else {
            ns[j + 1]
        });
        assert(false);
    }
}

proof fn lemma_assoc_remove(ns: Seq<Seq<u8>>, es: Seq<TraceEntry>, i: int)
    requires
        ns.len() == es.len(),
        0 <= i < ns.len(),
        uniq_names(ns),
    ensures
        assoc_map(ns.remove(i), es.remove(i)) == assoc_map(ns, es).remove(ns[i]),
    decreases ns.len(),
{
    let m0 = assoc_map(ns.drop_last(), es.drop_last());
    if i == ns.len() - 1 {
        assert(ns.remove(i) =~= ns.drop_last());
        assert(es.remove(i) =~= es.drop_last());
        lemma_assoc_contains(ns.drop_last(), es.drop_last(), ns[i]);
        assert(!ns.drop_last().contains(ns[i])) by {
            if ns.drop_last().contains(ns[i]) {
                let j = choose|j: int|
                    0 <= j < ns.drop_last().len() && ns.drop_last()[j] == ns[i];
                assert(ns[j] == ns[i]);
                assert(false);
            }
        };
        assert(m0.insert(ns[i], es[i]).remove(ns[i]) =~= m0);
    } else {
        assert(uniq_names(ns.drop_last())) by {
            assert forall|a: int, b: int|
                0 <= a < b < ns.drop_last().len() implies ns.drop_last()[a]
                != ns.drop_last()[b] by {
                assert(ns.drop_last()[a] == ns[a]);
                assert(ns.drop_last()[b] == ns[b]);
            };
        };
        lemma_assoc_remove(ns.drop_last(), es.drop_last(), i);
        assert(ns.drop_last()[i] == ns[i]);
        assert(ns.remove(i).drop_last() =~= ns.drop_last().remove(i));
        assert(es.remove(i).drop_last() =~= es.drop_last().remove(i));
        assert(ns.remove(i).len() == ns.len() - 1);
        assert(ns.remove(i).last() == ns.last());
        assert(es.remove(i).last() == es.last());
        assert(ns.last() != ns[i]);
        assert(m0.remove(ns[i]).insert(ns.last(), es.last()) =~= m0.insert(
            ns.last(),
            es.last(),
        ).remove(ns[i]));
    }
}

/// Phase of a primary event: async creation/drop markers always render as
/// instants; other enter/exit kinds render as span begin/end exactly when
/// the id is classified `Span`; everything else is an instant.
pub open spec fn spec_phase(kind: crate::trace_point::TracePointKind, is_span: bool) -> EventPhase {
    if kind.is_async_boundary() {
        EventPhase::Instant
    } else if kind.is_enter_kind() {
        if is_span {
            EventPhase::SpanBegin
        } else {
            EventPhase::Instant
        }
    } else if kind.is_exit_kind() {
        if is_span {
            EventPhase::SpanEnd
        } else {
            EventPhase::Instant
        }
    } else {
        EventPhase::Instant
    }
}

/// The engine's transition on one occurrence: successor open-entry map and
/// id counter, the primary event, and the optional linking record.
pub open spec fn spec_step(
    open: Map<Seq<u8>, TraceEntry>,
    next: u32,
    m: MetaView,
    is_span: bool,
    ts: u64,
) -> (Map<Seq<u8>, TraceEntry>, u32, EventModel, Option<ArrowModel>) {
    let primary = EventModel {
        name: match m.name {
            Some(nm) => nm,
            None => Seq::empty(),
        },
        cat: m.kind.spec_label(),
        phase: spec_phase(m.kind, is_span),
        pid: 1,
        tid: 1,
        ts,
    };
    match m.name {
        None => (open, next, primary, None),
        Some(nm) => {
            if m.kind.is_enter_kind() {
                if open.contains_key(nm) {
                    let cid = open[nm].unique_id;
                    (
                        open.insert(nm, TraceEntry { last_timestamp: ts, unique_id: cid }),
                        next,
                        primary,
                        Some(arrow_model(nm, ArrowPhase::Step, ts, cid)),
                    )
                } else {
                    (
                        open.insert(nm, TraceEntry { last_timestamp: ts, unique_id: next }),
                        (next + 1) as u32,
                        primary,
                        Some(arrow_model(nm, ArrowPhase::Start, ts, next)),
                    )
                }
            } else if m.kind.is_exit_kind() {
                if open.contains_key(nm) {
                    let cid = open[nm].unique_id;
                    if m.kind.is_closing_exit_kind() {
                        (
                            open.remove(nm),
                            next,
                            primary,
                            Some(arrow_model(nm, ArrowPhase::Step, ts, cid)),
                        )
                    } else {
                        // a poll-exit ends one poll slice but leaves the
                        // async flow open under its creation id
                        (
                            open.insert(nm, TraceEntry { last_timestamp: ts, unique_id: cid }),
                            next,
                            primary,
                            Some(arrow_model(nm, ArrowPhase::Step, ts, cid)),
                        )
                    }
                } else {
                    (
                        open,
                        (next + 1) as u32,
                        primary,
                        Some(arrow_model(nm, ArrowPhase::Step, ts, next)),
                    )
                }
            } else {
                (open, next, primary, None)
            }
        },
    }
}

pub open spec fn arrow_model(nm: Seq<u8>, phase: ArrowPhase, ts: u64, cid: u32) -> ArrowModel {
    ArrowModel { name: nm, cat: nm, phase, pid: 1, tid: 1, ts, id: cid }
}

/// The correlation engine: per-id classification plus the open entries and
/// the monotonically increasing correlation id counter.
pub struct CorrelationEngine {
    store: Store,
    names: Vec<Vec<u8>>,
    entries: Vec<TraceEntry>,
    next_id: u32,
}

impl CorrelationEngine {
    pub closed spec fn open_map(self) -> Map<Seq<u8>, TraceEntry> {
        assoc_map(self.names.deep_view(), self.entries@)
    }

    pub closed spec fn next(self) -> u32 {
        self.next_id
    }

    pub closed spec fn is_span(self, lid: u64) -> bool {
        self.store.spec_span_ids().contains(lid)
    }

    pub closed spec fn wf(self) -> bool {
        &&& self.names@.len() == self.entries@.len()
        &&& uniq_names(self.names.deep_view())
    }

    /// A fresh engine over a run's classification: nothing open, ids from 0.
    pub fn new(store: Store) -> (e: CorrelationEngine)
        ensures
            e.wf(),
            e.open_map() == Map::<Seq<u8>, TraceEntry>::empty(),
            e.next() == 0,
            forall|lid: u64| e.is_span(lid) == store.spec_span_ids().contains(lid),
    {
        let e = CorrelationEngine { store, names: Vec::new(), entries: Vec::new(), next_id: 0 };
        proof {
            assert(e.open_map() =~= Map::<Seq<u8>, TraceEntry>::empty());
        }
        e
    }

    /// Handles one occurrence: emits its primary event and optional linking
    /// record and advances the open-entry state, exactly as `spec_step`
    /// prescribes.  The id counter is bounded by the machine word; a run
    /// can check `next()` and stop before it is ever exhausted.
    #[verifier::rlimit(80)]
    pub fn step(&mut self, meta: &TracePointMeta, ts: u64) -> (out: StepOutput)
        requires
            old(self).wf(),
            old(self).next() < u32::MAX,
        ensures
            final(self).wf(),
            forall|lid: u64| final(self).is_span(lid) == old(self).is_span(lid),
            ({
                let r = spec_step(
                    old(self).open_map(),
                    old(self).next(),
                    meta@,
                    old(self).is_span(meta@.logical_id),
                    ts,
                );
                &&& final(self).open_map() == r.0
                &&& final(self).next() == r.1
                &&& out.primary@ == r.2
                &&& opt_arrow_view(out.arrow) == r.3
            }),
    {
        let kind = meta.kind;
        let is_span = matches!(self.store.drawing_type(meta.logical_id), DrawingType::Span);
        let phase = if kind.async_boundary() {
            EventPhase::Instant
        } else if kind.is_enter() {
            if is_span {
                EventPhase::SpanBegin
            } else {
                EventPhase::Instant
            }
        } else if kind.is_exit() {
            if is_span {
                EventPhase::SpanEnd
            } else {
                EventPhase::Instant
            }
        } else {
            EventPhase::Instant
        };
        proof {
            assert(phase == spec_phase(meta@.kind, old(self).is_span(meta@.logical_id)));
        }
        let cat = kind.label();
        match &meta.name {
            None => {
                let primary = Event { name: Vec::new(), cat, phase, pid: 1, tid: 1, ts };
                StepOutput { primary, arrow: None }
            },
            Some(nm) => {
                let ghost nmv: Seq<u8> = nm@;
                let ghost ns0: Seq<Seq<u8>> = self.names.deep_view();
                let ghost es0: Seq<TraceEntry> = self.entries@;
                let ghost m0: Map<Seq<u8>, TraceEntry> = self.open_map();
                let primary = Event { name: copy_bytes(nm), cat, phase, pid: 1, tid: 1, ts };
                let found = self.find(nm);
                proof {
                    match found {
                        Some(i) => {
                            lemma_assoc_get(ns0, es0, i as int);
                            assert(m0.contains_key(nmv));
                        },
                        None => {
                            assert(!ns0.contains(nmv)) by {
                                if ns0.contains(nmv) {
                                    let j = choose|j: int|
                                        0 <= j < ns0.len() && ns0[j] == nmv;
                                    assert(false);
                                }
                            };
                            lemma_assoc_contains(ns0, es0, nmv);
                            assert(!m0.contains_key(nmv));
                        },
                    }
                }
                if kind.is_enter() {
                    match found {
                        Some(i) => {
                            let kvec = self.names.remove(i);
                            let ent = self.entries.remove(i);
                            let fresh = TraceEntry { last_timestamp: ts, unique_id: ent.unique_id };
                            self.names.push(kvec);
                            self.entries.push(fresh);
                            proof {
                                lemma_assoc_remove(ns0, es0, i as int);
                                lemma_uniq_remove(ns0, i as int);
                                assert(self.names.deep_view() =~~= ns0.remove(i as int).push(nmv));
                                assert(self.entries@ =~= es0.remove(i as int).push(fresh));
                                assert(self.names.deep_view().drop_last() =~~= ns0.remove(i as int));
                                assert(self.entries@.drop_last() =~= es0.remove(i as int));
                                assert(self.open_map() == assoc_map(
                                    ns0.remove(i as int),
                                    es0.remove(i as int),
                                ).insert(nmv, fresh));
                                assert(self.open_map() =~= m0.insert(nmv, fresh));
                                assert(uniq_names(self.names.deep_view())) by {
                                    let ns1 = ns0.remove(i as int).push(nmv);
                                    assert forall|a: int, b: int|
                                        0 <= a < b < ns1.len() implies ns1[a] != ns1[b] by {
                                        if b == ns1.len() - 1 {
                                            assert(ns1[a] == ns0.remove(i as int)[a]);
                                            assert(!ns0.remove(i as int).contains(nmv));
                                        } else {
                                            assert(ns1[a] == ns0.remove(i as int)[a]);
                                            assert(ns1[b] == ns0.remove(i as int)[b]);
                                        }
                                    };
                                };
                            }
                            let arrow = ArrowEvent {
                                name: copy_bytes(nm),
                                cat: copy_bytes(nm),
                                phase: ArrowPhase::Step,
                                pid: 1,
                                tid: 1,
                                ts,
                                id: ent.unique_id,
                            };
                            StepOutput { primary, arrow: Some(arrow) }
                        },
                        None => {
                            let cid = self.next_id;
                            self.next_id = self.next_id + 1;
                            let fresh = TraceEntry { last_timestamp: ts, unique_id: cid };
                            self.names.push(copy_bytes(nm));
                            self.entries.push(fresh);
                            proof {
                                assert(self.names.deep_view() =~~= ns0.push(nmv));
                                assert(self.entries@ =~= es0.push(fresh));
                                assert(self.names.deep_view().drop_last() =~~= ns0);
                                assert(self.entries@.drop_last() =~= es0);
                                assert(self.open_map() == m0.insert(nmv, fresh));
                                assert(uniq_names(self.names.deep_view())) by {
                                    let ns1 = ns0.push(nmv);
                                    assert forall|a: int, b: int|
                                        0 <= a < b < ns1.len() implies ns1[a] != ns1[b] by {
                                        if b == ns1.len() - 1 {
                                            assert(ns1[a] == ns0[a]);
                                        } else {
                                            assert(ns1[a] == ns0[a]);
                                            assert(ns1[b] == ns0[b]);
                                        }
                                    };
                                };
                            }
                            let arrow = ArrowEvent {
                                name: copy_bytes(nm),
                                cat: copy_bytes(nm),
                                phase: ArrowPhase::Start,
                                pid: 1,
                                tid: 1,
                                ts,
                                id: cid,
                            };
                            StepOutput { primary, arrow: Some(arrow) }
                        },
                    }
                } else if kind.is_exit() {
                    match found {
                        Some(i) => {
                            let kvec = self.names.remove(i);
                            let ent = self.entries.remove(i);
                            proof {
                                lemma_assoc_remove(ns0, es0, i as int);
                                lemma_uniq_remove(ns0, i as int);
                                assert(self.names.deep_view() =~~= ns0.remove(i as int));
                                assert(self.entries@ =~= es0.remove(i as int));
                                assert(self.open_map() == m0.remove(nmv));
                            }
                            if kind.closes_entry() {
                                let arrow = ArrowEvent {
                                    name: copy_bytes(nm),
                                    cat: copy_bytes(nm),
                                    phase: ArrowPhase::Step,
                                    pid: 1,
                                    tid: 1,
                                    ts,
                                    id: ent.unique_id,
                                };
                                StepOutput { primary, arrow: Some(arrow) }
                            } else {
                                // poll-exit: refresh the entry, keep it open
                                let fresh = TraceEntry {
                                    last_timestamp: ts,
                                    unique_id: ent.unique_id,
                                };
                                self.names.push(kvec);
                                self.entries.push(fresh);
                                proof {
                                    assert(self.names.deep_view() =~~= ns0.remove(
                                        i as int,
                                    ).push(nmv));
                                    assert(self.entries@ =~= es0.remove(i as int).push(fresh));
                                    assert(self.names.deep_view().drop_last() =~~= ns0.remove(
                                        i as int,
                                    ));
                                    assert(self.entries@.drop_last() =~= es0.remove(i as int));
                                    assert(self.open_map() == assoc_map(
                                        ns0.remove(i as int),
                                        es0.remove(i as int),
                                    ).insert(nmv, fresh));
                                    assert(self.open_map() =~= m0.insert(nmv, fresh));
                                    assert(uniq_names(self.names.deep_view())) by {
                                        let ns1 = ns0.remove(i as int).push(nmv);
                                        assert forall|a: int, b: int|
                                            0 <= a < b < ns1.len() implies ns1[a] != ns1[b] by {
                                            if b == ns1.len() - 1 {
                                                assert(ns1[a] == ns0.remove(i as int)[a]);
                                                assert(!ns0.remove(i as int).contains(nmv));
                                            } else {
                                                assert(ns1[a] == ns0.remove(i as int)[a]);
                                                assert(ns1[b] == ns0.remove(i as int)[b]);
                                            }
                                        };
                                    };
                                }
                                let arrow = ArrowEvent {
                                    name: copy_bytes(nm),
                                    cat: copy_bytes(nm),
                                    phase: ArrowPhase::Step,
                                    pid: 1,
                                    tid: 1,
                                    ts,
                                    id: ent.unique_id,
                                };
                                StepOutput { primary, arrow: Some(arrow) }
                            }
                        },
                        None => {
                            let cid = self.next_id;
                            self.next_id = self.next_id + 1;
                            let arrow = ArrowEvent {
                                name: copy_bytes(nm),
                                cat: copy_bytes(nm),
                                phase: ArrowPhase::Step,
                                pid: 1,
                                tid: 1,
                                ts,
                                id: cid,
                            };
                            StepOutput { primary, arrow: Some(arrow) }
                        },
                    }
                } else {
                    StepOutput { primary, arrow: None }
                }
            },
        }
    }

    /// Handles one decoded occurrence: resolves its metadata and runs one
    /// step.  Markers pass through with nothing emitted, as do points whose
    /// id the table does not know (the decoder never emits such a point).
    pub fn handle_occurrence(&mut self, table: &TracePointTable, occ: Occurrence) -> (r: Option<
        StepOutput,
    >)
        requires
            old(self).wf(),
            old(self).next() < u32::MAX,
            table.wf(),
        ensures
            final(self).wf(),
            forall|lid: u64| final(self).is_span(lid) == old(self).is_span(lid),
            match occ {
                Occurrence::Marker => r is None && *final(self) == *old(self),
                Occurrence::Point { timestamp, wire_id } => {
                    if table@.contains_key(wire_id) {
                        let s = spec_step(
                            old(self).open_map(),
                            old(self).next(),
                            table@[wire_id],
                            old(self).is_span(table@[wire_id].logical_id),
                            timestamp,
                        );
                        match r {
                            Some(out) => final(self).open_map() == s.0 && final(self).next()
                                == s.1 && out.primary@ == s.2 && opt_arrow_view(out.arrow) == s.3,
                            None => false,
                        }
                    } else {
                        r is None && *final(self) == *old(self)
                    }
                },
            },
    {
        match occ {
            Occurrence::Marker => None,
            Occurrence::Point { timestamp, wire_id } => {
                match table.get(wire_id) {
                    Some(meta) => Some(self.step(meta, timestamp)),
                    None => None,
                }
            },
        }
    }

    /// The next correlation id that would be allocated.  A driver loop can
    /// test it against the machine bound before handing the engine another
    /// occurrence.
    pub fn next_correlation_id(&self) -> (r: u32)
        ensures
            r == self.next(),
    {
        self.next_id
    }

    fn find(&self, nm: &Vec<u8>) -> (r: Option<usize>)
        requires
            self.wf(),
        ensures
            match r {
                Some(i) => i < self.names@.len() && self.names.deep_view()[i as int] == nm@,
                None => forall|j: int|
                    0 <= j < self.names@.len() ==> self.names.deep_view()[j] != nm@,
            },
    {
        let mut i: usize = 0;
        while i < self.names.len()
            invariant
                i <= self.names@.len(),
                forall|j: int| 0 <= j < i ==> self.names.deep_view()[j] != nm@,
            decreases self.names@.len() - i,
        {
            if bytes_eq(&self.names[i], nm) {
                proof {
                    assert(self.names.deep_view()[i as int] == self.names@[i as int]@);
                }
                return Some(i);
            }
            proof {
                assert(self.names.deep_view()[i as int] == self.names@[i as int]@);
            }
            i += 1;
        }
        None
    }
}

/// A whole run at the specification level: the open entries and the id
/// counter after the engine has consumed `occs` in order, each occurrence
/// given as its resolved metadata and timestamp.
pub open spec fn spec_run(
    open: Map<Seq<u8>, TraceEntry>,
    next: u32,
    occs: Seq<(MetaView, u64)>,
    spans: Set<u64>,
) -> (Map<Seq<u8>, TraceEntry>, u32)
    decreases occs.len(),
{
    if occs.len() == 0 {
        (open, next)
    } else {
        let r = spec_step(open, next, occs[0].0, spans.contains(occs[0].0.logical_id), occs[0].1);
        spec_run(r.0, r.1, occs.drop_first(), spans)
    }
}

/// The id counter never goes backwards and grows by at most one per
/// occurrence; correlation ids are therefore handed out in strictly
/// increasing order across a run.
pub proof fn lemma_run_counter_monotonic(
    open: Map<Seq<u8>, TraceEntry>,
    next: u32,
    occs: Seq<(MetaView, u64)>,
    spans: Set<u64>,
)
    requires
        next + occs.len() <= u32::MAX,
    ensures
        next <= spec_run(open, next, occs, spans).1,
        spec_run(open, next, occs, spans).1 <= next + occs.len(),
    decreases occs.len(),
{
    if occs.len() > 0 {
        let r = spec_step(open, next, occs[0].0, spans.contains(occs[0].0.logical_id), occs[0].1);
        assert(next <= r.1 <= next + 1);
        lemma_run_counter_monotonic(r.0, r.1, occs.drop_first(), spans);
    }
}

/// Pairing: from a state where `n` is not open, an `Enter` of `n` opens
/// exactly one entry, under the next fresh correlation id, and the matching
/// `Exit` closes exactly that entry again, its linking record reusing the
/// same id; the pair consumes exactly one id.  Together with
/// `lemma_run_counter_monotonic`, the enter of any later pair allocates a
/// strictly larger id, so no two pairs ever share a correlation id.
pub proof fn lemma_alternating_pair(
    open: Map<Seq<u8>, TraceEntry>,
    next: u32,
    m_enter: MetaView,
    m_exit: MetaView,
    n: Seq<u8>,
    ts1: u64,
    ts2: u64,
    spans: Set<u64>,
)
    requires
        m_enter.name == Some(n),
        m_exit.name == Some(n),
        m_enter.kind.is_enter_kind(),
        m_exit.kind.is_closing_exit_kind(),
        !open.contains_key(n),
        next < u32::MAX,
    ensures
        ({
            let r1 = spec_step(open, next, m_enter, spans.contains(m_enter.logical_id), ts1);
            let r2 = spec_step(r1.0, r1.1, m_exit, spans.contains(m_exit.logical_id), ts2);
            &&& r1.0 == open.insert(n, TraceEntry { last_timestamp: ts1, unique_id: next })
            &&& r1.3 == Some(arrow_model(n, ArrowPhase::Start, ts1, next))
            &&& r1.1 == next
                + 1
            // the exit closes the entry the enter opened and reuses its id
            &&& r2.0 == open
            &&& r2.3 == Some(arrow_model(n, ArrowPhase::Step, ts2, next))
            &&& r2.1 == next + 1
        }),
{
    let r1 = spec_step(open, next, m_enter, spans.contains(m_enter.logical_id), ts1);
    let r2 = spec_step(r1.0, r1.1, m_exit, spans.contains(m_exit.logical_id), ts2);
    assert(r2.0 =~= open);
}

/// Strict alternation of one name: even positions enter, odd positions a
/// closing exit, every occurrence named `n`.
pub open spec fn alternating_for(n: Seq<u8>, occs: Seq<(MetaView, u64)>) -> bool {
    forall|i: int|
        0 <= i < occs.len() ==> ((#[trigger] occs[i].0.name) == Some(n) && if i % 2 == 0 {
            occs[i].0.kind.is_enter_kind()
        } else {
            occs[i].0.kind.is_closing_exit_kind()
        })
}

/// Pairing over a whole run: a strictly alternating enter/exit stream for
/// one name opens and closes exactly one entry per pair — after every pair
/// the open entries are back to what they were — and consumes exactly one
/// correlation id per pair.  By `lemma_alternating_pair`, the k-th pair runs
/// under the id `next + k`: no two pairs share one.
pub proof fn lemma_alternating_run(
    open: Map<Seq<u8>, TraceEntry>,
    next: u32,
    n: Seq<u8>,
    occs: Seq<(MetaView, u64)>,
    spans: Set<u64>,
)
    requires
        !open.contains_key(n),
        alternating_for(n, occs),
        occs.len() % 2 == 0,
        next + occs.len() / 2 <= u32::MAX,
    ensures
        spec_run(open, next, occs, spans) == (open, (next + occs.len() / 2) as u32),
    decreases occs.len(),
{
    if occs.len() > 0 {
        assert(occs.len() >= 2);
        let m_enter = occs[0].0;
        let m_exit = occs[1].0;
        assert(m_enter.name == Some(n) && m_enter.kind.is_enter_kind());
        assert(m_exit.name == Some(n) && m_exit.kind.is_closing_exit_kind());
        lemma_alternating_pair(open, next, m_enter, m_exit, n, occs[0].1, occs[1].1, spans);
        let r1 = spec_step(open, next, m_enter, spans.contains(m_enter.logical_id), occs[0].1);
        let r2 = spec_step(r1.0, r1.1, m_exit, spans.contains(m_exit.logical_id), occs[1].1);
        let rest = occs.drop_first().drop_first();
        assert(rest =~= occs.skip(2));
        assert(alternating_for(n, rest)) by {
            assert forall|i: int|
                0 <= i < rest.len() implies ((#[trigger] rest[i].0.name) == Some(n) && if i % 2
                == 0 {
                rest[i].0.kind.is_enter_kind()
            } else {
                rest[i].0.kind.is_closing_exit_kind()
            }) by {
                assert(rest[i] == occs[i + 2]);
                assert((i + 2) % 2 == i % 2);
            };
        };
        assert(rest.len() == occs.len() - 2);
        assert((occs.len() - 2) / 2 == occs.len() / 2 - 1) by (nonlinear_arith)
            requires
                occs.len() >= 2 && occs.len() % 2 == 0,
        ;
        lemma_alternating_run(r2.0, r2.1, n, rest, spans);
        assert(spec_run(open, next, occs, spans) == spec_run(r1.0, r1.1, occs.drop_first(), spans));
        assert(occs.drop_first()[0] == occs[1]);
        assert(occs.drop_first().len() > 0);
        assert(spec_run(r1.0, r1.1, occs.drop_first(), spans) == spec_run(r2.0, r2.1, rest, spans));
    }
}

/// No two pairs share a correlation id: a pair's id equals the counter at
/// its enter and every pair leaves the counter strictly above its own id,
/// so after any further occurrences a later enter allocates a strictly
/// larger id than every id handed out before.
pub proof fn lemma_later_enter_allocates_fresh_id(
    open: Map<Seq<u8>, TraceEntry>,
    next: u32,
    mid: Seq<(MetaView, u64)>,
    spans: Set<u64>,
    cid: u32,
)
    requires
        cid < next,
        next + mid.len() <= u32::MAX,
    ensures
        cid < spec_run(open, next, mid, spans).1,
{
    lemma_run_counter_monotonic(open, next, mid, spans);
}

/// Async continuation: a poll-enter of a name that is already open emits a
/// step linking record under the existing correlation id, refreshes the
/// timestamp, and neither closes the entry nor allocates a new id.
pub proof fn lemma_poll_enter_continues(
    open: Map<Seq<u8>, TraceEntry>,
    next: u32,
    m: MetaView,
    n: Seq<u8>,
    ts: u64,
    is_span: bool,
)
    requires
        m.name == Some(n),
        m.kind.is_enter_kind(),
        open.contains_key(n),
    ensures
        ({
            let r = spec_step(open, next, m, is_span, ts);
            &&& r.0 == open.insert(
                n,
                TraceEntry { last_timestamp: ts, unique_id: open[n].unique_id },
            )
            &&& r.0.contains_key(n) && r.0[n].unique_id == open[n].unique_id
            &&& r.1 == next
            &&& r.3 == Some(arrow_model(n, ArrowPhase::Step, ts, open[n].unique_id))
        }),
{
}

/// Async interleaving: while `n` is open under the id its `AsyncEnter`
/// allocated, any run of poll-enters and poll-exits of `n` keeps the entry
/// open under that same id, allocates no further id, and touches no other
/// name — every poll occurrence links back to the id of the creation, and
/// none of them closes the entry.
pub proof fn lemma_async_polls_share_id(
    open: Map<Seq<u8>, TraceEntry>,
    next: u32,
    n: Seq<u8>,
    polls: Seq<(MetaView, u64)>,
    spans: Set<u64>,
    cid: u32,
)
    requires
        open.contains_key(n),
        open[n].unique_id == cid,
        forall|i: int|
            0 <= i < polls.len() ==> (#[trigger] polls[i].0.name == Some(n)
                && (polls[i].0.kind.is_enter_kind() || polls[i].0.kind
                == TracePointKind::AsyncPollExit)),
    ensures
        ({
            let r = spec_run(open, next, polls, spans);
            &&& r.0.contains_key(n)
            &&& r.0[n].unique_id == cid
            &&& r.0.remove(n) == open.remove(n)
            &&& r.1 == next
        }),
    decreases polls.len(),
{
    if polls.len() == 0 {
        assert(spec_run(open, next, polls, spans).0.remove(n) =~= open.remove(n));
    } else {
        let m = polls[0].0;
        let ts = polls[0].1;
        let r = spec_step(open, next, m, spans.contains(m.logical_id), ts);
        if m.kind.is_enter_kind() {
            lemma_poll_enter_continues(open, next, m, n, ts, spans.contains(m.logical_id));
        }
        assert(r.0 == open.insert(n, TraceEntry { last_timestamp: ts, unique_id: cid }));
        assert(r.0.remove(n) =~= open.remove(n));
        lemma_async_polls_share_id(r.0, r.1, n, polls.drop_first(), spans, cid);
    }
}

/// The whole async lifecycle: an `AsyncEnter` of `n` opens the entry under
/// the fresh id, every interleaved poll-enter and poll-exit links back to
/// that id without closing the entry, and only the final `AsyncExit`
/// closes it — its linking record still under the creation's id, the open
/// entries back to what they were, and exactly one id consumed.
pub proof fn lemma_async_lifecycle(
    open: Map<Seq<u8>, TraceEntry>,
    next: u32,
    n: Seq<u8>,
    m_create: MetaView,
    ts0: u64,
    polls: Seq<(MetaView, u64)>,
    m_drop: MetaView,
    ts_end: u64,
    spans: Set<u64>,
)
    requires
        !open.contains_key(n),
        next < u32::MAX,
        m_create.name == Some(n),
        m_create.kind == TracePointKind::AsyncEnter,
        forall|i: int|
            0 <= i < polls.len() ==> (#[trigger] polls[i].0.name == Some(n)
                && (polls[i].0.kind == TracePointKind::AsyncPollEnter || polls[i].0.kind
                == TracePointKind::AsyncPollExit)),
        m_drop.name == Some(n),
        m_drop.kind == TracePointKind::AsyncExit,
    ensures
        ({
            let created = spec_step(open, next, m_create, spans.contains(m_create.logical_id), ts0);
            let polled = spec_run(created.0, created.1, polls, spans);
            let dropped = spec_step(
                polled.0,
                polled.1,
                m_drop,
                spans.contains(m_drop.logical_id),
                ts_end,
            );
            &&& created.3 == Some(arrow_model(n, ArrowPhase::Start, ts0, next))
            &&& polled.0.contains_key(n) && polled.0[n].unique_id == next
            &&& polled.1 == next + 1
            &&& dropped.3 == Some(arrow_model(n, ArrowPhase::Step, ts_end, next))
            &&& dropped.0 == open
            &&& dropped.1 == next + 1
        }),
{
    let created = spec_step(open, next, m_create, spans.contains(m_create.logical_id), ts0);
    assert(created.0 == open.insert(n, TraceEntry { last_timestamp: ts0, unique_id: next }));
    lemma_async_polls_share_id(created.0, created.1, n, polls, spans, next);
    let polled = spec_run(created.0, created.1, polls, spans);
    let dropped = spec_step(polled.0, polled.1, m_drop, spans.contains(m_drop.logical_id), ts_end);
    assert(dropped.0 == polled.0.remove(n));
    assert(created.0.remove(n) =~= open);
    assert(dropped.0 =~= open);
}

/// A closing exit (synchronous exit or async drop) of an open name closes
/// exactly that entry, allocates nothing, and its linking record carries
/// the id the entry was opened under.
pub proof fn lemma_exit_closes_and_shares_id(
    open: Map<Seq<u8>, TraceEntry>,
    next: u32,
    m: MetaView,
    n: Seq<u8>,
    ts: u64,
    is_span: bool,
)
    requires
        m.name == Some(n),
        m.kind.is_closing_exit_kind(),
        open.contains_key(n),
    ensures
        ({
            let r = spec_step(open, next, m, is_span, ts);
            &&& r.0 == open.remove(n)
            &&& r.1 == next
            &&& r.3 == Some(arrow_model(n, ArrowPhase::Step, ts, open[n].unique_id))
        }),
{
}

/// Orphan exit: an exit-family occurrence whose name has no open entry is
/// not dropped — it still emits its primary event and a step linking record
/// (under a fresh, never-reused id), and leaves the open entries unchanged.
pub proof fn lemma_orphan_exit_emits(
    open: Map<Seq<u8>, TraceEntry>,
    next: u32,
    m: MetaView,
    n: Seq<u8>,
    ts: u64,
    is_span: bool,
)
    requires
        m.name == Some(n),
        m.kind.is_exit_kind(),
        !open.contains_key(n),
    ensures
        ({
            let r = spec_step(open, next, m, is_span, ts);
            &&& r.0 == open
            &&& r.1 == (next + 1) as u32
            &&& r.2 == (EventModel {
                name: n,
                cat: m.kind.spec_label(),
                phase: spec_phase(m.kind, is_span),
                pid: 1,
                tid: 1,
                ts,
            })
            &&& r.3 == Some(arrow_model(n, ArrowPhase::Step, ts, next))
        }),
{
}

fn bytes_eq(a: &Vec<u8>, b: &Vec<u8>) -> (r: bool)
    ensures
        r == (a@ == b@),
{
    if a.len() != b.len() {
        proof {
            assert(a@ != b@);
        }
        return false;
    }
    let mut i: usize = 0;
    while i < a.len()
        invariant
            i <= a.len(),
            a@.len() == b@.len(),
            forall|j: int| 0 <= j < i ==> a@[j] == b@[j],
        decreases a.len() - i,
    {
        if a[i] != b[i] {
            proof {
                assert(a@ != b@);
            }
            return false;
        }
        i += 1;
    }
    proof {
        assert(a@ =~= b@);
    }
    true
}

} // verus!
