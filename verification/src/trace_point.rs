//! Tracepoint metadata model: occurrence kinds, per-id metadata records and
//! the immutable wire-id -> metadata table built once per run.

use vstd::prelude::*;

verus! {

/// Semantic role of a tracepoint occurrence.
///
/// `Enter`/`Exit` delimit a synchronous interval.  `AsyncEnter`/`AsyncExit`
/// mark creation and drop of an asynchronous unit, while
/// `AsyncPollEnter`/`AsyncPollExit` delimit each poll of it.  `Instant` is a
/// single-moment occurrence with no paired close.
#[derive(Clone, Copy, Debug, PartialEq, Eq, Structural)]
pub enum TracePointKind {
    Enter,
    Exit,
    AsyncEnter,
    AsyncExit,
    AsyncPollEnter,
    AsyncPollExit,
    Instant,
}

impl TracePointKind {
    /// Enter-family kinds: they open or continue a correlated interval.
    pub open spec fn is_enter_kind(self) -> bool {
        match self {
            TracePointKind::Enter | TracePointKind::AsyncEnter | TracePointKind::AsyncPollEnter => true,
            _ => false,
        }
    }

    /// Exit-family kinds: they close (or step) a correlated interval.
    pub open spec fn is_exit_kind(self) -> bool {
        match self {
            TracePointKind::Exit | TracePointKind::AsyncExit | TracePointKind::AsyncPollExit => true,
            _ => false,
        }
    }

    /// Creation/drop markers of an asynchronous unit.  Occurrences of these
    /// kinds always render as instants, and they alone never make an id a
    /// span in the classification.
    pub open spec fn is_async_boundary(self) -> bool {
        match self {
            TracePointKind::AsyncEnter | TracePointKind::AsyncExit => true,
            _ => false,
        }
    }

    /// Exit kinds that close an open entry: the synchronous exit and the
    /// async drop.  A poll-exit ends one poll slice but leaves the async
    /// flow open until its drop.
    pub open spec fn is_closing_exit_kind(self) -> bool {
        match self {
            TracePointKind::Exit | TracePointKind::AsyncExit => true,
            _ => false,
        }
    }

    pub fn is_enter(&self) -> (r: bool)
        ensures
            r == self.is_enter_kind(),
    {
        matches!(self, TracePointKind::Enter | TracePointKind::AsyncEnter | TracePointKind::AsyncPollEnter)
    }

    pub fn is_exit(&self) -> (r: bool)
        ensures
            r == self.is_exit_kind(),
    {
        matches!(self, TracePointKind::Exit | TracePointKind::AsyncExit | TracePointKind::AsyncPollExit)
    }

    pub fn async_boundary(&self) -> (r: bool)
        ensures
            r == self.is_async_boundary(),
    {
        matches!(self, TracePointKind::AsyncEnter | TracePointKind::AsyncExit)
    }

    pub fn closes_entry(&self) -> (r: bool)
        ensures
            r == self.is_closing_exit_kind(),
    {
        matches!(self, TracePointKind::Exit | TracePointKind::AsyncExit)
    }

    /// Label of the kind, used as the category of every primary event: the
    /// ASCII bytes of the variant's name.
    pub open spec fn spec_label(self) -> Seq<u8> {
        match self {
            TracePointKind::Enter => seq![69, 110, 116, 101, 114],
            TracePointKind::Exit => seq![69, 120, 105, 116],
            TracePointKind::AsyncEnter => seq![65, 115, 121, 110, 99, 69, 110, 116, 101, 114],
            TracePointKind::AsyncExit => seq![65, 115, 121, 110, 99, 69, 120, 105, 116],
            TracePointKind::AsyncPollEnter => seq![65, 115, 121, 110, 99, 80, 111, 108, 108, 69, 110, 116, 101, 114],
            TracePointKind::AsyncPollExit => seq![65, 115, 121, 110, 99, 80, 111, 108, 108, 69, 120, 105, 116],
            TracePointKind::Instant => seq![73, 110, 115, 116, 97, 110, 116],
        }
    }

    pub fn label(&self) -> (r: Vec<u8>)
        ensures
            r@ == self.spec_label(),
    {
        let r: Vec<u8> = match self {
            TracePointKind::Enter => vec![69, 110, 116, 101, 114],
            TracePointKind::Exit => vec![69, 120, 105, 116],
            TracePointKind::AsyncEnter => vec![65, 115, 121, 110, 99, 69, 110, 116, 101, 114],
            TracePointKind::AsyncExit => vec![65, 115, 121, 110, 99, 69, 120, 105, 116],
            TracePointKind::AsyncPollEnter => vec![65, 115, 121, 110, 99, 80, 111, 108, 108, 69, 110, 116, 101, 114],
            TracePointKind::AsyncPollExit => vec![65, 115, 121, 110, 99, 80, 111, 108, 108, 69, 120, 105, 116],
            TracePointKind::Instant => vec![73, 110, 115, 116, 97, 110, 116],
        };
        proof {
            assert(r@ =~= self.spec_label());
        }
        r
    }
}

/// Mathematical view of one metadata record.
pub struct MetaView {
    pub wire_id: u8,
    pub logical_id: u64,
    pub name: Option<Seq<u8>>,
    pub kind: TracePointKind,
    pub location: Seq<u8>,
    pub comment: Option<Seq<u8>>,
}

/// Metadata of one tracepoint, as embedded in the firmware binary.
///
/// `wire_id` is the one-byte id carried by every frame; `logical_id` groups
/// the tracepoints of one traced unit (for instance the enter and exit points
/// of one function) and is the key of the Span/Instant classification.
#[derive(Clone, Debug)]
pub struct TracePointMeta {
    pub wire_id: u8,
    pub logical_id: u64,
    pub name: Option<Vec<u8>>,
    pub kind: TracePointKind,
    pub location: Vec<u8>,
    pub comment: Option<Vec<u8>>,
}

pub open spec fn opt_bytes_view(o: Option<Vec<u8>>) -> Option<Seq<u8>> {
    match o {
        Some(v) => Some(v@),
        None => None,
    }
}

impl View for TracePointMeta {
    type V = MetaView;

    open spec fn view(&self) -> MetaView {
        MetaView {
            wire_id: self.wire_id,
            logical_id: self.logical_id,
            name: opt_bytes_view(self.name),
            kind: self.kind,
            location: self.location@,
            comment: opt_bytes_view(self.comment),
        }
    }
}

impl DeepView for TracePointMeta {
    type V = MetaView;

    open spec fn deep_view(&self) -> MetaView {
        self.view()
    }
}

/// Fatal error while building the metadata table: no partial table is ever
/// handed out.
#[derive(Clone, Copy, Debug, PartialEq, Eq, Structural)]
pub enum StartupError {
    /// The metadata section held no records at all.
    EmptyMetadata,
    /// A record declared the reserved wire id 0 (the stream-control marker).
    ReservedId,
    /// Two records declared the same wire id.
    IdCollision,
}

/// Immutable wire-id -> metadata table, shared by decoder and correlator.
#[derive(Debug)]
pub struct TracePointTable {
    slots: Vec<Option<TracePointMeta>>,
}

/// One step of the table construction: reject the reserved id 0 and
/// colliding ids, otherwise record the metadata under its wire id.
pub open spec fn table_build_step(acc: Map<u8, MetaView>, r: MetaView) -> Result<
    Map<u8, MetaView>,
    StartupError,
> {
    if r.wire_id == 0 {
        Err(StartupError::ReservedId)
    } else if acc.contains_key(r.wire_id) {
        Err(StartupError::IdCollision)
    } else {
        Ok(acc.insert(r.wire_id, r))
    }
}

/// Folds the records, in order, into the id -> metadata map; the first
/// offending record decides the error.
pub open spec fn table_build_fold(recs: Seq<MetaView>, acc: Map<u8, MetaView>) -> Result<
    Map<u8, MetaView>,
    StartupError,
>
    decreases recs.len(),
{
    if recs.len() == 0 {
        Ok(acc)
    } else {
        match table_build_step(acc, recs[0]) {
            Ok(acc2) => table_build_fold(recs.drop_first(), acc2),
            Err(e) => Err(e),
        }
    }
}

/// What building the table from a record list yields: an empty list is a
/// missing metadata section and fatal.
pub open spec fn spec_build_table(recs: Seq<MetaView>) -> Result<Map<u8, MetaView>, StartupError> {
    if recs.len() == 0 {
        Err(StartupError::EmptyMetadata)
    } else {
        table_build_fold(recs, Map::empty())
    }
}

proof fn lemma_fold_conditions(recs: Seq<MetaView>, acc: Map<u8, MetaView>)
    ensures
        table_build_fold(recs, acc) is Ok <==> ((forall|i: int|
            0 <= i < recs.len() ==> (#[trigger] recs[i].wire_id) != 0) && (forall|i: int, j: int|
            0 <= i < j < recs.len() ==> recs[i].wire_id != recs[j].wire_id) && (forall|i: int|
            0 <= i < recs.len() ==> !acc.contains_key(#[trigger] recs[i].wire_id))),
        table_build_fold(recs, acc) matches Ok(m) ==> ((forall|id: u8|
            m.contains_key(id) <==> (acc.contains_key(id) || exists|i: int|
                0 <= i < recs.len() && (#[trigger] recs[i].wire_id) == id)) && (forall|i: int|
            0 <= i < recs.len() ==> m[#[trigger] recs[i].wire_id] == recs[i]) && (forall|id: u8|
            acc.contains_key(id) && !(exists|i: int|
                0 <= i < recs.len() && (#[trigger] recs[i].wire_id) == id) ==> m.contains_key(id)
                && m[id] == acc[id])),
    decreases recs.len(),
{
    if recs.len() == 0 {
    } else {
        let r0 = recs[0];
        let tail = recs.drop_first();
        assert(forall|i: int| 0 <= i < tail.len() ==> #[trigger] tail[i] == recs[i + 1]);
        match table_build_step(acc, r0) {
            Err(e) => {
                if r0.wire_id == 0 {
                } else {
                    assert(acc.contains_key(recs[0].wire_id));
                }
            },
            Ok(acc2) => {
                lemma_fold_conditions(tail, acc2);
                if table_build_fold(recs, acc) is Ok {
                    let m = table_build_fold(recs, acc)->Ok_0;
                    // the tail conditions hold; lift them to the whole list
                    assert forall|i: int|
                        0 <= i < recs.len() implies (#[trigger] recs[i].wire_id) != 0 by {
                        if i > 0 {
                            assert(tail[i - 1] == recs[i]);
                        }
                    };
                    assert forall|i: int|
                        0 <= i < recs.len() implies !acc.contains_key(
                        #[trigger] recs[i].wire_id,
                    ) by {
                        if i > 0 {
                            assert(tail[i - 1] == recs[i]);
                            assert(!acc2.contains_key(recs[i].wire_id));
                        }
                    };
                    assert forall|i: int, j: int|
                        0 <= i < j < recs.len() implies recs[i].wire_id != recs[j].wire_id by {
                        if i == 0 {
                            assert(tail[j - 1] == recs[j]);
                            assert(!acc2.contains_key(tail[j - 1].wire_id));
                            assert(acc2.contains_key(r0.wire_id));
                        } else {
                            assert(tail[i - 1] == recs[i]);
                            assert(tail[j - 1] == recs[j]);
                        }
                    };
                    // contents: every record under its id, other keys kept
                    assert forall|i: int|
                        0 <= i < recs.len() implies m[#[trigger] recs[i].wire_id] == recs[i] by {
                        if i == 0 {
                            assert(acc2.contains_key(r0.wire_id));
                            assert(!(exists|k: int|
                                0 <= k < tail.len() && (#[trigger] tail[k].wire_id)
                                    == r0.wire_id)) by {
                                if exists|k: int|
                                    0 <= k < tail.len() && (#[trigger] tail[k].wire_id)
                                        == r0.wire_id {
                                    let k = choose|k: int|
                                        0 <= k < tail.len() && (#[trigger] tail[k].wire_id)
                                            == r0.wire_id;
                                    assert(!acc2.contains_key(tail[k].wire_id));
                                    assert(false);
                                }
                            };
                            assert(m[r0.wire_id] == acc2[r0.wire_id]);
                        } else {
                            assert(tail[i - 1] == recs[i]);
                        }
                    };
                    assert forall|id: u8|
                        m.contains_key(id) <==> (acc.contains_key(id) || exists|i: int|
                            0 <= i < recs.len() && (#[trigger] recs[i].wire_id) == id) by {
                        if m.contains_key(id) {
                            if acc2.contains_key(id) {
                                if !acc.contains_key(id) {
                                    assert(recs[0].wire_id == id);
                                }
                            } else {
                                let k = choose|k: int|
                                    0 <= k < tail.len() && (#[trigger] tail[k].wire_id) == id;
                                assert(recs[k + 1].wire_id == id);
                            }
                        }
                        if acc.contains_key(id) {
                            assert(acc2.contains_key(id));
                            assert(m.contains_key(id));
                        }
                        if exists|i: int|
                            0 <= i < recs.len() && (#[trigger] recs[i].wire_id) == id {
                            let i = choose|i: int|
                                0 <= i < recs.len() && (#[trigger] recs[i].wire_id) == id;
                            if i == 0 {
                                assert(acc2.contains_key(id));
                            } else {
                                assert(tail[i - 1].wire_id == id);
                            }
                            assert(m.contains_key(id));
                        }
                    };
                    assert forall|id: u8|
                        acc.contains_key(id) && !(exists|i: int|
                            0 <= i < recs.len() && (#[trigger] recs[i].wire_id)
                                == id) implies m.contains_key(id) && m[id] == acc[id] by {
                        assert(!(0 <= 0 < recs.len() && recs[0].wire_id == id));
                        assert(acc2.contains_key(id));
                        assert(acc2[id] == acc[id]);
                        assert(!(exists|k: int|
                            0 <= k < tail.len() && (#[trigger] tail[k].wire_id) == id)) by {
                            if exists|k: int|
                                0 <= k < tail.len() && (#[trigger] tail[k].wire_id) == id {
                                let k = choose|k: int|
                                    0 <= k < tail.len() && (#[trigger] tail[k].wire_id) == id;
                                assert(recs[k + 1].wire_id == id);
                                assert(false);
                            }
                        };
                    };
                } else {
                    if (forall|i: int| 0 <= i < recs.len() ==> (#[trigger] recs[i].wire_id) != 0)
                        && (forall|i: int, j: int|
                        0 <= i < j < recs.len() ==> recs[i].wire_id != recs[j].wire_id) && (
                    forall|i: int|
                        0 <= i < recs.len() ==> !acc.contains_key(#[trigger] recs[i].wire_id)) {
                        assert forall|i: int|
                            0 <= i < tail.len() implies !acc2.contains_key(
                            #[trigger] tail[i].wire_id,
                        ) by {
                            assert(tail[i] == recs[i + 1]);
                            assert(recs[i + 1].wire_id != recs[0].wire_id);
                            assert(!acc.contains_key(recs[i + 1].wire_id));
                        };
                        assert forall|i: int, j: int|
                            0 <= i < j < tail.len() implies tail[i].wire_id != tail[j].wire_id by {
                            assert(tail[i] == recs[i + 1]);
                            assert(tail[j] == recs[j + 1]);
                        };
                        assert forall|i: int|
                            0 <= i < tail.len() implies (#[trigger] tail[i].wire_id) != 0 by {
                            assert(tail[i] == recs[i + 1]);
                        };
                        assert(table_build_fold(tail, acc2) is Ok);
                        assert(false);
                    }
                }
            },
        }
    }
}

/// When table building is owed to succeed: exactly on a non-empty record
/// list with no reserved id and pairwise distinct wire ids — and then the
/// table holds exactly those records, each under its wire id.
pub proof fn lemma_build_table_conditions(recs: Seq<MetaView>)
    ensures
        spec_build_table(recs) is Ok <==> (recs.len() > 0 && (forall|i: int|
            0 <= i < recs.len() ==> (#[trigger] recs[i].wire_id) != 0) && (forall|i: int, j: int|
            0 <= i < j < recs.len() ==> recs[i].wire_id != recs[j].wire_id)),
        spec_build_table(recs) matches Ok(m) ==> ((forall|id: u8|
            m.contains_key(id) <==> exists|i: int|
                0 <= i < recs.len() && (#[trigger] recs[i].wire_id) == id) && (forall|i: int|
            0 <= i < recs.len() ==> m[#[trigger] recs[i].wire_id] == recs[i])),
{
    if recs.len() > 0 {
        lemma_fold_conditions(recs, Map::empty());
    }
}

impl View for TracePointTable {
    type V = Map<u8, MetaView>;

    closed spec fn view(&self) -> Map<u8, MetaView> {
        Map::new(
            |id: u8| self.slots@[id as int] is Some,
            |id: u8| self.slots@[id as int]->Some_0@,
        )
    }
}

impl TracePointTable {
    pub closed spec fn wf(self) -> bool {
        self.slots@.len() == 256
    }

    /// Builds the immutable id -> metadata table from the records of the
    /// firmware's metadata section.  Fails fatally on an empty section, on
    /// the reserved id 0 and on an id collision; no partial table results.
    #[verifier::loop_isolation(false)]
    pub fn build(records: Vec<TracePointMeta>) -> (r: Result<TracePointTable, StartupError>)
        ensures
            match r {
                Ok(t) => t.wf() && Ok::<_, StartupError>(t@) == spec_build_table(records.deep_view()),
                Err(e) => spec_build_table(records.deep_view()) == Err::<Map<u8, MetaView>, _>(e),
            },
    {
        let ghost all: Seq<MetaView> = records.deep_view();
        let mut recs = records;
        if recs.len() == 0 {
            return Err(StartupError::EmptyMetadata);
        }
        proof {
            assert(all.len() == recs@.len());
        }
        let mut slots: Vec<Option<TracePointMeta>> = Vec::new();
        let mut j: usize = 0;
        while j < 256
            invariant
                j <= 256,
                slots@.len() == j,
                forall|k: int| 0 <= k < j ==> slots@[k] is None,
            decreases 256 - j,
        {
            slots.push(None);
            j += 1;
        }
        let mut t = TracePointTable { slots };
        proof {
            assert(t@ =~= Map::<u8, MetaView>::empty());
            assert(spec_build_table(all) == table_build_fold(all, Map::empty()));
        }
        while recs.len() > 0
            invariant
                t.wf(),
                spec_build_table(all) == table_build_fold(recs.deep_view(), t@),
            decreases recs.len(),
        {
            let ghost pre: Seq<MetaView> = recs.deep_view();
            proof {
                assert(pre.len() == recs@.len());
            }
            let r = recs.remove(0);
            let ghost rv: MetaView = r@;
            proof {
                assert(rv == pre[0]);
                assert(recs.deep_view() =~= pre.drop_first());
            }
            if r.wire_id == 0 {
                proof {
                    assert(table_build_fold(pre, t@) == Err::<Map<u8, MetaView>, _>(
                        StartupError::ReservedId,
                    ));
                }
                return Err(StartupError::ReservedId);
            }
            let idx = r.wire_id as usize;
            if t.slots[idx].is_some() {
                proof {
                    assert(t@.contains_key(rv.wire_id));
                    assert(table_build_fold(pre, t@) == Err::<Map<u8, MetaView>, _>(
                        StartupError::IdCollision,
                    ));
                }
                return Err(StartupError::IdCollision);
            }
            proof {
                assert(!t@.contains_key(rv.wire_id));
            }
            let ghost old_map = t@;
            t.slots.set(idx, Some(r));
            proof {
                assert(t@ =~= old_map.insert(rv.wire_id, rv));
            }
        }
        proof {
            assert(recs.deep_view() =~= Seq::<MetaView>::empty());
        }
        Ok(t)
    }

    /// Looks a wire id up in the table.
    pub fn get(&self, id: u8) -> (r: Option<&TracePointMeta>)
        requires
            self.wf(),
        ensures
            match r {
                Some(m) => self@.contains_key(id) && m@ == self@[id],
                None => !self@.contains_key(id),
            },
    {
        match &self.slots[id as usize] {
            Some(m) => Some(m),
            None => None,
        }
    }

    /// Membership test for a wire id.
    pub fn contains(&self, id: u8) -> (r: bool)
        requires
            self.wf(),
        ensures
            r == self@.contains_key(id),
    {
        self.slots[id as usize].is_some()
    }
}

} // verus!
