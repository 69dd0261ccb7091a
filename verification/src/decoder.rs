//! Incremental decoder of the wire stream.
//!
//! The stream is a sequence of frames.  A frame either is the single reserved
//! byte 0 — a stream-control marker emitted when the device (re)starts, which
//! resets the host's running timestamp counter — or consists of a non-zero
//! one-byte tracepoint id followed by a base-128 encoded timestamp delta:
//! little-endian groups of seven bits, each carrier byte having its high bit
//! set except the last.  A delta longer than ten bytes is malformed.  Frame
//! boundaries are implied entirely by this encoding; there is no length
//! prefix.
//!
//! The decoder consumes the stream byte by byte, so its output cannot depend
//! on how the input was cut into chunks (`lemma_decode_chunking`).  A frame
//! whose id is not in the metadata table, and a malformed delta, are dropped
//! and decoding resumes at the next frame boundary; a dropped frame leaves
//! the running counter untouched and contributes no occurrence
//! (`lemma_unknown_frame_dropped`, `lemma_resilience`).

use vstd::prelude::*;

use crate::trace_point::TracePointTable;

verus! {

/// One decoded item of the stream.
#[derive(Clone, Copy, Debug, PartialEq, Eq, Structural)]
pub enum Occurrence {
    /// A tracepoint occurrence: the wire id of a tracepoint known to the
    /// metadata table, at an absolute timestamp.
    Point { timestamp: u64, wire_id: u8 },
    /// Stream-control marker: the device (re)started its stream.
    Marker,
}

/// Position of the decoder between two bytes of the stream.
#[derive(Clone, Copy, Debug, PartialEq, Eq, Structural)]
pub enum DecodeMode {
    /// At a frame boundary.
    Boundary,
    /// The id byte was read; the timestamp delta is being accumulated.
    Delta { wire_id: u8, acc: u64, nbytes: u8 },
    /// A malformed (over-long) delta: bytes are discarded up to the next
    /// frame boundary.
    Resync,
}

/// Incremental stream decoder.  Feed it byte chunks with `push`; frames may
/// straddle chunk boundaries freely.
#[derive(Clone, Copy, Debug, PartialEq, Eq, Structural)]
pub struct StreamDecoder {
    pub mode: DecodeMode,
    /// Host-reconstructed running timestamp counter.
    pub counter: u64,
    /// How many frames were dropped (unknown id or malformed delta);
    /// saturates, diagnostic only.
    pub dropped: u64,
}

/// What one input byte does to the decoder: the successor state and the
/// occurrences (none or one) it completes.
pub open spec fn spec_byte_step(d: StreamDecoder, known: Set<u8>, b: u8) -> (StreamDecoder, Seq<
    Occurrence,
>) {
    match d.mode {
        DecodeMode::Boundary => {
            if b == 0 {
                (
                    StreamDecoder { mode: DecodeMode::Boundary, counter: 0, dropped: d.dropped },
                    seq![Occurrence::Marker],
                )
            } else {
                (
                    StreamDecoder {
                        mode: DecodeMode::Delta { wire_id: b, acc: 0, nbytes: 0 },
                        ..d
                    },
                    seq![],
                )
            }
        },
        DecodeMode::Delta { wire_id, acc, nbytes } => {
            let group = (b & 0x7f) as u64;
            let shift = 7 * (nbytes as u64);
            let acc2 = if shift <= 63 {
                acc | (group << shift)
            } else {
                acc
            };
            if b & 0x80 == 0 {
                if known.contains(wire_id) {
                    let ts = d.counter.wrapping_add(acc2);
                    (
                        StreamDecoder { mode: DecodeMode::Boundary, counter: ts, dropped: d.dropped },
                        seq![Occurrence::Point { timestamp: ts, wire_id }],
                    )
                } else {
                    (
                        StreamDecoder {
                            mode: DecodeMode::Boundary,
                            counter: d.counter,
                            dropped: d.dropped.saturating_add(1),
                        },
                        seq![],
                    )
                }
            } else {
                if nbytes >= 9 {
                    (
                        StreamDecoder {
                            mode: DecodeMode::Resync,
                            counter: d.counter,
                            dropped: d.dropped.saturating_add(1),
                        },
                        seq![],
                    )
                } else {
                    (
                        StreamDecoder {
                            mode: DecodeMode::Delta { wire_id, acc: acc2, nbytes: (nbytes + 1) as u8 },
                            ..d
                        },
                        seq![],
                    )
                }
            }
        },
        DecodeMode::Resync => {
            if b & 0x80 == 0 {
                (StreamDecoder { mode: DecodeMode::Boundary, ..d }, seq![])
            } else {
                (StreamDecoder { mode: DecodeMode::Resync, ..d }, seq![])
            }
        },
    }
}

/// Decoding a whole byte sequence: the fold of `spec_byte_step` over it,
/// with the completed occurrences in input order.
pub open spec fn spec_decode(d: StreamDecoder, known: Set<u8>, bytes: Seq<u8>) -> (StreamDecoder, Seq<
    Occurrence,
>)
    decreases bytes.len(),
{
    if bytes.len() == 0 {
        (d, seq![])
    } else {
        let s1 = spec_byte_step(d, known, bytes[0]);
        let s2 = spec_decode(s1.0, known, bytes.drop_first());
        (s2.0, s1.1 + s2.1)
    }
}

impl StreamDecoder {
    /// The delta accumulator never holds ten or more carrier bytes.
    pub open spec fn wf(self) -> bool {
        match self.mode {
            DecodeMode::Delta { nbytes, .. } => nbytes <= 9,
            _ => true,
        }
    }

    /// A fresh decoder: at a frame boundary, counter at zero.
    pub fn new() -> (d: StreamDecoder)
        ensures
            d == (StreamDecoder { mode: DecodeMode::Boundary, counter: 0, dropped: 0 }),
    {
        StreamDecoder { mode: DecodeMode::Boundary, counter: 0, dropped: 0 }
    }

    /// Appends a chunk of raw bytes and returns every occurrence it
    /// completes, leaving an incomplete trailing frame pending in the
    /// decoder state.  Exactly `spec_decode` of the chunk.
    pub fn push(&mut self, table: &TracePointTable, bytes: &[u8]) -> (out: Vec<Occurrence>)
        requires
            old(self).wf(),
            table.wf(),
        ensures
            final(self).wf(),
            (*final(self), out@) == spec_decode(*old(self), table@.dom(), bytes@),
    {
        let ghost known: Set<u8> = table@.dom();
        let mut out: Vec<Occurrence> = Vec::new();
        let mut i: usize = 0;
        proof {
            assert(bytes@.skip(0) =~= bytes@);
            assert(out@ + spec_decode(*self, known, bytes@).1 =~= spec_decode(
                *self,
                known,
                bytes@,
            ).1);
        }
        while i < bytes.len()
            invariant
                i <= bytes.len(),
                self.wf(),
                table.wf(),
                known == table@.dom(),
                spec_decode(*old(self), known, bytes@) == {
                    let rest = spec_decode(*self, known, bytes@.skip(i as int));
                    (rest.0, out@ + rest.1)
                },
            decreases bytes.len() - i,
        {
            let b = bytes[i];
            let ghost pre = *self;
            let ghost out_pre = out@;
            let ghost rest_pre = bytes@.skip(i as int);
            proof {
                assert(rest_pre[0] == bytes@[i as int]);
                assert(rest_pre.drop_first() =~= bytes@.skip(i + 1));
            }
            match self.mode {
                DecodeMode::Boundary => {
                    if b == 0 {
                        self.counter = 0;
                        out.push(Occurrence::Marker);
                    } else {
                        self.mode = DecodeMode::Delta { wire_id: b, acc: 0, nbytes: 0 };
                    }
                },
                DecodeMode::Delta { wire_id, acc, nbytes } => {
                    let group = (b & 0x7f) as u64;
                    let shift: u64 = 7 * (nbytes as u64);
                    let acc2 = if shift <= 63 {
                        acc | (group << shift)
                    } else {
                        acc
                    };
                    if b & 0x80 == 0 {
                        if table.contains(wire_id) {
                            let ts = self.counter.wrapping_add(acc2);
                            self.counter = ts;
                            self.mode = DecodeMode::Boundary;
                            out.push(Occurrence::Point { timestamp: ts, wire_id });
                        } else {
                            self.dropped = self.dropped.saturating_add(1);
                            self.mode = DecodeMode::Boundary;
                        }
                    } else {
                        if nbytes >= 9 {
                            self.dropped = self.dropped.saturating_add(1);
                            self.mode = DecodeMode::Resync;
                        } else {
                            self.mode = DecodeMode::Delta {
                                wire_id,
                                acc: acc2,
                                nbytes: nbytes + 1,
                            };
                        }
                    }
                },
                DecodeMode::Resync => {
                    if b & 0x80 == 0 {
                        self.mode = DecodeMode::Boundary;
                    }
                },
            }
            proof {
                let stepped = spec_byte_step(pre, known, b);
                assert(*self == stepped.0);
                assert(out@ =~= out_pre + stepped.1);
                let rest2 = spec_decode(*self, known, bytes@.skip(i + 1));
                assert(spec_decode(pre, known, rest_pre) == (rest2.0, stepped.1 + rest2.1));
                assert(out_pre + (stepped.1 + rest2.1) =~= (out_pre + stepped.1) + rest2.1);
            }
            i += 1;
        }
        proof {
            assert(bytes@.skip(bytes@.len() as int) =~= Seq::<u8>::empty());
        }
        out
    }
}

/// Chunking-independence: decoding a byte sequence in two chunks yields the
/// same occurrences, in the same order, and the same final decoder state as
/// decoding it in one piece — however the stream is cut.
pub proof fn lemma_decode_chunking(d: StreamDecoder, known: Set<u8>, a: Seq<u8>, b: Seq<u8>)
    ensures
        ({
            let first = spec_decode(d, known, a);
            let second = spec_decode(first.0, known, b);
            spec_decode(d, known, a + b) == (second.0, first.1 + second.1)
        }),
    decreases a.len(),
{
    let first = spec_decode(d, known, a);
    let second = spec_decode(first.0, known, b);
    if a.len() == 0 {
        assert(a + b =~= b);
        assert(first == (d, Seq::<Occurrence>::empty()));
        assert(first.1 + second.1 =~= second.1);
    } else {
        let stepped = spec_byte_step(d, known, a[0]);
        lemma_decode_chunking(stepped.0, known, a.drop_first(), b);
        let tail_first = spec_decode(stepped.0, known, a.drop_first());
        assert((a + b)[0] == a[0]);
        assert((a + b).drop_first() =~= a.drop_first() + b);
        assert(stepped.1 + (tail_first.1 + second.1) =~= (stepped.1 + tail_first.1) + second.1);
    }
}

/// The byte sequences that form one well-delimited timestamp delta: at most
/// ten bytes, every carrier byte but the last with its high bit set.
pub open spec fn is_delta_bytes(bs: Seq<u8>) -> bool {
    &&& 1 <= bs.len() <= 10
    &&& forall|i: int| 0 <= i < bs.len() - 1 ==> #[trigger] bs[i] & 0x80 != 0
    &&& bs[bs.len() - 1] & 0x80 == 0
}

/// A complete non-marker frame: a non-zero id byte and its delta bytes.
pub open spec fn is_frame(bs: Seq<u8>) -> bool {
    &&& bs.len() >= 2
    &&& bs[0] != 0
    &&& is_delta_bytes(bs.drop_first())
}

proof fn lemma_consume_delta_unknown(
    d: StreamDecoder,
    known: Set<u8>,
    wire_id: u8,
    acc: u64,
    nbytes: u8,
    ds: Seq<u8>,
)
    requires
        d.mode == (DecodeMode::Delta { wire_id, acc, nbytes }),
        nbytes + ds.len() <= 10,
        1 <= ds.len(),
        forall|i: int| 0 <= i < ds.len() - 1 ==> #[trigger] ds[i] & 0x80 != 0,
        ds[ds.len() - 1] & 0x80 == 0,
        !known.contains(wire_id),
    ensures
        spec_decode(d, known, ds) == (
            StreamDecoder {
                mode: DecodeMode::Boundary,
                counter: d.counter,
                dropped: d.dropped.saturating_add(1),
            },
            Seq::<Occurrence>::empty(),
        ),
    decreases ds.len(),
{
    let stepped = spec_byte_step(d, known, ds[0]);
    let target = StreamDecoder {
        mode: DecodeMode::Boundary,
        counter: d.counter,
        dropped: d.dropped.saturating_add(1),
    };
    if ds.len() == 1 {
        assert(ds[0] & 0x80 == 0);
        assert(ds.drop_first() =~= Seq::<u8>::empty());
        assert(stepped.0 == target);
        assert(spec_decode(stepped.0, known, ds.drop_first()).0 == target);
        assert(spec_decode(d, known, ds).0 == target);
        assert(stepped.1 + Seq::<Occurrence>::empty() =~= Seq::<Occurrence>::empty());
    } else {
        assert(ds[0] & 0x80 != 0);
        assert(nbytes < 9);
        let tail = ds.drop_first();
        assert forall|i: int| 0 <= i < tail.len() - 1 implies #[trigger] tail[i] & 0x80 != 0 by {
            assert(tail[i] == ds[i + 1]);
            assert(ds[i + 1] & 0x80 != 0);
        };
        assert(tail[tail.len() - 1] == ds[ds.len() - 1]);
        lemma_consume_delta_unknown(
            stepped.0,
            known,
            wire_id,
            stepped.0.mode->Delta_acc,
            (nbytes + 1) as u8,
            tail,
        );
        assert(stepped.0.counter == d.counter && stepped.0.dropped == d.dropped);
        assert(spec_decode(stepped.0, known, tail).0 == target);
        assert(spec_decode(d, known, ds).0 == target);
        assert(stepped.1 + Seq::<Occurrence>::empty() =~= Seq::<Occurrence>::empty());
    }
}

/// Resilience, first half: a complete frame whose id the metadata table does
/// not know is dropped whole.  It emits nothing and leaves the decoder back
/// at a frame boundary with the running counter untouched; only the
/// diagnostic drop count moves.
pub proof fn lemma_unknown_frame_dropped(d: StreamDecoder, known: Set<u8>, f: Seq<u8>)
    requires
        d.mode is Boundary,
        is_frame(f),
        !known.contains(f[0]),
    ensures
        spec_decode(d, known, f) == (
            StreamDecoder {
                mode: DecodeMode::Boundary,
                counter: d.counter,
                dropped: d.dropped.saturating_add(1),
            },
            Seq::<Occurrence>::empty(),
        ),
{
    let stepped = spec_byte_step(d, known, f[0]);
    assert(stepped.0.mode == (DecodeMode::Delta { wire_id: f[0], acc: 0, nbytes: 0 }));
    lemma_consume_delta_unknown(stepped.0, known, f[0], 0, 0, f.drop_first());
    assert(stepped.1 + Seq::<Occurrence>::empty() =~= Seq::<Occurrence>::empty());
}

proof fn lemma_dropped_count_irrelevant(
    d1: StreamDecoder,
    d2: StreamDecoder,
    known: Set<u8>,
    bytes: Seq<u8>,
)
    requires
        d1.mode == d2.mode,
        d1.counter == d2.counter,
    ensures
        spec_decode(d1, known, bytes).1 == spec_decode(d2, known, bytes).1,
        spec_decode(d1, known, bytes).0.mode == spec_decode(d2, known, bytes).0.mode,
        spec_decode(d1, known, bytes).0.counter == spec_decode(d2, known, bytes).0.counter,
    decreases bytes.len(),
{
    if bytes.len() > 0 {
        let s1 = spec_byte_step(d1, known, bytes[0]);
        let s2 = spec_byte_step(d2, known, bytes[0]);
        assert(s1.1 == s2.1);
        lemma_dropped_count_irrelevant(s1.0, s2.0, known, bytes.drop_first());
    }
}

/// Resilience: one unknown-id frame in front of the rest of the stream does
/// not change what the rest decodes to — the same occurrences follow it as
/// if it had never arrived.
pub proof fn lemma_resilience(d: StreamDecoder, known: Set<u8>, f: Seq<u8>, rest: Seq<u8>)
    requires
        d.mode is Boundary,
        is_frame(f),
        !known.contains(f[0]),
    ensures
        spec_decode(d, known, f + rest).1 == spec_decode(d, known, rest).1,
{
    lemma_decode_chunking(d, known, f, rest);
    lemma_unknown_frame_dropped(d, known, f);
    let mid = spec_decode(d, known, f).0;
    lemma_dropped_count_irrelevant(mid, d, known, rest);
    assert(Seq::<Occurrence>::empty() + spec_decode(mid, known, rest).1 =~= spec_decode(
        mid,
        known,
        rest,
    ).1);
}

} // verus!
