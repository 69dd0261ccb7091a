//! Rendering of event records as JSON bytes, one object per line in the
//! output convention: primary events carry name, category, phase code
//! (`B`/`E`/`i`), process and thread id and timestamp; linking records add
//! the flow id and the binding-point tag `e`.  The file is the header `[`,
//! the records each followed by a comma, and the closing `]` appended only
//! at clean stream end.

use vstd::prelude::*;

use crate::engine::{opt_arrow_view, ArrowEvent, ArrowModel, ArrowPhase, Event, EventModel, EventPhase, StepOutput};

verus! {

/// Decimal digits of `n`, most significant first.
pub open spec fn dec_digits(n: nat) -> Seq<u8>
    decreases n,
{
    if n < 10 {
        seq![(48 + n) as u8]
    } else {
        dec_digits(n / 10).push((48 + n % 10) as u8)
    }
}

/// JSON escape of one byte: quote and backslash get a backslash, control
/// bytes become a `\u00..` sequence, everything else stands as itself.
pub open spec fn esc_byte(b: u8) -> Seq<u8> {
    if b == 34 {
        seq![92u8, 34]
    } else if b == 92 {
        seq![92u8, 92]
    } else if b < 32 {
        seq![92u8, 117, 48, 48, hex_digit((b / 16) as u8), hex_digit((b % 16) as u8)]
    } else {
        seq![b]
    }
}

pub open spec fn hex_digit(h: u8) -> u8 {
    if h < 10 {
        (48 + h) as u8
    } else {
        (87 + h) as u8
    }
}

/// JSON escape of a byte string.
pub open spec fn esc(s: Seq<u8>) -> Seq<u8>
    decreases s.len(),
{
    if s.len() == 0 {
        Seq::empty()
    } else {
        esc(s.drop_last()) + esc_byte(s.last())
    }
}

/// Phase code of a primary event: `B`, `E` or `i`.
pub open spec fn phase_code(p: EventPhase) -> u8 {
    match p {
        EventPhase::SpanBegin => 66,
        EventPhase::SpanEnd => 69,
        EventPhase::Instant => 105,
    }
}

/// Phase code of a linking record: `s` or `t`.
pub open spec fn arrow_code(p: ArrowPhase) -> u8 {
    match p {
        ArrowPhase::Start => 115,
        ArrowPhase::Step => 116,
    }
}

/// One primary event as a JSON object line, comma and newline included.
pub open spec fn spec_event_line(m: EventModel) -> Seq<u8> {
    // the record prefix closed by: },\n
    spec_record_prefix(m.name, m.cat, phase_code(m.phase), m.pid, m.tid, m.ts) + seq![125, 44, 10]
}

/// One linking record as a JSON object line, comma and newline included.
pub open spec fn spec_arrow_line(m: ArrowModel) -> Seq<u8> {
    // the record prefix, then: ,"id":  ...  ,"bp":"e"},\n
    spec_record_prefix(m.name, m.cat, arrow_code(m.phase), m.pid, m.tid, m.ts) + seq![44, 34, 105, 100, 34, 58]
        + dec_digits(m.id as nat) + seq![44, 34, 98, 112, 34, 58, 34, 101, 34] + seq![125, 44, 10]
}

/// Decimal rendering of an unsigned number.
pub fn render_u64(n: u64) -> (r: Vec<u8>)
    ensures
        r@ == dec_digits(n as nat),
    decreases n,
{
    if n < 10 {
        let mut out: Vec<u8> = Vec::new();
        out.push(48 + n as u8);
        proof {
            assert(out@ =~= dec_digits(n as nat));
        }
        out
    } else {
        proof {
            assert(n / 10 < n) by (nonlinear_arith)
                requires
                    n >= 10,
            ;
        }
        let mut out = render_u64(n / 10);
        out.push(48 + (n % 10) as u8);
        proof {
            assert(out@ =~= dec_digits(n as nat));
        }
        out
    }
}

/// JSON escaping of a name or category.
pub fn escape_bytes(s: &Vec<u8>) -> (r: Vec<u8>)
    ensures
        r@ == esc(s@),
{
    let mut out: Vec<u8> = Vec::new();
    let mut i: usize = 0;
    proof {
        assert(s@.take(0) =~= Seq::<u8>::empty());
    }
    while i < s.len()
        invariant
            i <= s@.len(),
            out@ == esc(s@.take(i as int)),
        decreases s@.len() - i,
    {
        let b = s[i];
        let ghost pre = out@;
        if b == 34 {
            out.push(92);
            out.push(34);
        } else if b == 92 {
            out.push(92);
            out.push(92);
        } else if b < 32 {
            out.push(92);
            out.push(117);
            out.push(48);
            out.push(48);
            let hi = b / 16;
            let lo = b % 16;
            out.push(if hi < 10 { 48 + hi } else { 87 + hi });
            out.push(if lo < 10 { 48 + lo } else { 87 + lo });
        } else {
            out.push(b);
        }
        proof {
            assert(out@ =~= pre + esc_byte(s@[i as int]));
            assert(s@.take(i + 1).drop_last() =~= s@.take(i as int));
            assert(s@.take(i + 1).last() == s@[i as int]);
            assert(out@ =~= esc(s@.take(i + 1)));
        }
        i += 1;
    }
    proof {
        assert(s@.take(s@.len() as int) =~= s@);
    }
    out
}

fn push_vec(out: &mut Vec<u8>, src: &Vec<u8>)
    ensures
        final(out)@ == old(out)@ + src@,
{
    let mut i: usize = 0;
    proof {
        assert(out@ =~= old(out)@ + src@.take(0));
    }
    while i < src.len()
        invariant
            i <= src@.len(),
            out@ == old(out)@ + src@.take(i as int),
        decreases src@.len() - i,
    {
        out.push(src[i]);
        proof {
            assert(src@.take(i + 1) =~= src@.take(i as int).push(src@[i as int]));
            assert(out@ =~= old(out)@ + src@.take(i + 1));
        }
        i += 1;
    }
    proof {
        assert(src@.take(src@.len() as int) =~= src@);
    }
}

/// The opening of the output file, written once at run start.
pub fn render_header() -> (r: Vec<u8>)
    ensures
        r@ == seq![91u8, 32, 10],  // the bytes of: [ \n
{
    let mut out: Vec<u8> = Vec::new();
    out.push(91);
    out.push(32);
    out.push(10);
    proof {
        assert(out@ =~= seq![91u8, 32, 10]);
    }
    out
}

/// The closing bracket, appended only at clean stream end.
pub fn render_footer() -> (r: Vec<u8>)
    ensures
        r@ == seq![93u8],
{
    let mut out: Vec<u8> = Vec::new();
    out.push(93);
    proof {
        assert(out@ =~= seq![93u8]);
    }
    out
}

/// The part shared by primary and linking records: name, category, phase
/// code, process and thread id and timestamp.
pub open spec fn spec_record_prefix(
    name: Seq<u8>,
    cat: Seq<u8>,
    code: u8,
    pid: u32,
    tid: u32,
    ts: u64,
) -> Seq<u8> {
    // {"name":"  ...  ","cat":"  ...  ","ph":"  .  ","pid":  ...  ,"tid":  ...  ,"ts":  ...
    seq![123, 34, 110, 97, 109, 101, 34, 58, 34] + esc(name) + seq![34, 44, 34, 99, 97, 116, 34, 58, 34] + esc(cat) + seq![34, 44, 34, 112, 104, 34, 58, 34]
        + seq![code, 34] + seq![44, 34, 112, 105, 100, 34, 58] + dec_digits(pid as nat) + seq![44, 34, 116, 105, 100, 34, 58]
        + dec_digits(tid as nat) + seq![44, 34, 116, 115, 34, 58] + dec_digits(ts as nat)
}

#[verifier::rlimit(100)]
fn render_record_prefix(
    name: &Vec<u8>,
    cat: &Vec<u8>,
    code: u8,
    pid: u32,
    tid: u32,
    ts: u64,
) -> (r: Vec<u8>)
    ensures
        r@ == spec_record_prefix(name@, cat@, code, pid, tid, ts),
{
    let mut out: Vec<u8> = Vec::new();
    let ghost mut acc: Seq<u8> = Seq::empty();
    out.push(123);
    out.push(34);
    out.push(110);
    out.push(97);
    out.push(109);
    out.push(101);
    out.push(34);
    out.push(58);
    out.push(34);
    proof {
        assert(out@ =~= seq![123, 34, 110, 97, 109, 101, 34, 58, 34]);
        acc = seq![123, 34, 110, 97, 109, 101, 34, 58, 34];
    }
    let piece = escape_bytes(name);
    push_vec(&mut out, &piece);
    proof {
        assert(out@ =~= acc + esc(name@));
        acc = acc + esc(name@);
    }
    out.push(34);
    out.push(44);
    out.push(34);
    out.push(99);
    out.push(97);
    out.push(116);
    out.push(34);
    out.push(58);
    out.push(34);
    proof {
        assert(out@ =~= acc + seq![34, 44, 34, 99, 97, 116, 34, 58, 34]);
        acc = acc + seq![34, 44, 34, 99, 97, 116, 34, 58, 34];
    }
    let piece = escape_bytes(cat);
    push_vec(&mut out, &piece);
    proof {
        assert(out@ =~= acc + esc(cat@));
        acc = acc + esc(cat@);
    }
    out.push(34);
    out.push(44);
    out.push(34);
    out.push(112);
    out.push(104);
    out.push(34);
    out.push(58);
    out.push(34);
    proof {
        assert(out@ =~= acc + seq![34, 44, 34, 112, 104, 34, 58, 34]);
        acc = acc + seq![34, 44, 34, 112, 104, 34, 58, 34];
    }
    out.push(code);
    out.push(34);
    proof {
        assert(out@ =~= acc + seq![code, 34]);
        acc = acc + seq![code, 34];
    }
    out.push(44);
    out.push(34);
    out.push(112);
    out.push(105);
    out.push(100);
    out.push(34);
    out.push(58);
    proof {
        assert(out@ =~= acc + seq![44, 34, 112, 105, 100, 34, 58]);
        acc = acc + seq![44, 34, 112, 105, 100, 34, 58];
    }
    let piece = render_u64(pid as u64);
    push_vec(&mut out, &piece);
    proof {
        assert(out@ =~= acc + dec_digits(pid as nat));
        acc = acc + dec_digits(pid as nat);
    }
    out.push(44);
    out.push(34);
    out.push(116);
    out.push(105);
    out.push(100);
    out.push(34);
    out.push(58);
    proof {
        assert(out@ =~= acc + seq![44, 34, 116, 105, 100, 34, 58]);
        acc = acc + seq![44, 34, 116, 105, 100, 34, 58];
    }
    let piece = render_u64(tid as u64);
    push_vec(&mut out, &piece);
    proof {
        assert(out@ =~= acc + dec_digits(tid as nat));
        acc = acc + dec_digits(tid as nat);
    }
    out.push(44);
    out.push(34);
    out.push(116);
    out.push(115);
    out.push(34);
    out.push(58);
    proof {
        assert(out@ =~= acc + seq![44, 34, 116, 115, 34, 58]);
        acc = acc + seq![44, 34, 116, 115, 34, 58];
    }
    let piece = render_u64(ts);
    push_vec(&mut out, &piece);
    proof {
        assert(out@ =~= acc + dec_digits(ts as nat));
        acc = acc + dec_digits(ts as nat);
    }
    proof {
        assert(out@ == spec_record_prefix(name@, cat@, code, pid, tid, ts));
    }
    out
}

/// Renders one primary event as its JSON line.
pub fn render_event_line(e: &Event) -> (r: Vec<u8>)
    ensures
        r@ == spec_event_line(e@),
{
    let code: u8 = match e.phase {
        EventPhase::SpanBegin => 66,
        EventPhase::SpanEnd => 69,
        EventPhase::Instant => 105,
    };
    let mut out = render_record_prefix(&e.name, &e.cat, code, e.pid, e.tid, e.ts);
    let ghost acc = out@;
    out.push(125);
    out.push(44);
    out.push(10);
    proof {
        assert(out@ =~= acc + seq![125, 44, 10]);
        assert(out@ == spec_event_line(e@));
    }
    out
}

/// Renders one linking record as its JSON line.
pub fn render_arrow_line(a: &ArrowEvent) -> (r: Vec<u8>)
    ensures
        r@ == spec_arrow_line(a@),
{
    let code: u8 = match a.phase {
        ArrowPhase::Start => 115,
        ArrowPhase::Step => 116,
    };
    let mut out = render_record_prefix(&a.name, &a.cat, code, a.pid, a.tid, a.ts);
    let ghost mut acc = out@;
    out.push(44);
    out.push(34);
    out.push(105);
    out.push(100);
    out.push(34);
    out.push(58);
    proof {
        assert(out@ =~= acc + seq![44, 34, 105, 100, 34, 58]);
        acc = acc + seq![44, 34, 105, 100, 34, 58];
    }
    let piece = render_u64(a.id as u64);
    push_vec(&mut out, &piece);
    proof {
        acc = acc + dec_digits(a.id as nat);
    }
    out.push(44);
    out.push(34);
    out.push(98);
    out.push(112);
    out.push(34);
    out.push(58);
    out.push(34);
    out.push(101);
    out.push(34);
    proof {
        assert(out@ =~= acc + seq![44, 34, 98, 112, 34, 58, 34, 101, 34]);
        acc = acc + seq![44, 34, 98, 112, 34, 58, 34, 101, 34];
    }
    out.push(125);
    out.push(44);
    out.push(10);
    proof {
        assert(out@ =~= acc + seq![125, 44, 10]);
        assert(out@ == spec_arrow_line(a@));
    }
    out
}


/// Everything one occurrence appends to the output file: its primary event
/// line and, for named enter/exit occurrences, its linking record line.
pub open spec fn spec_step_lines(primary: EventModel, arrow: Option<ArrowModel>) -> Seq<u8> {
    spec_event_line(primary) + match arrow {
        Some(a) => spec_arrow_line(a),
        None => Seq::empty(),
    }
}

/// Renders what one engine step emits, in file order: primary event first,
/// linking record after it.
pub fn render_step_lines(out: &StepOutput) -> (r: Vec<u8>)
    ensures
        r@ == spec_step_lines(out.primary@, opt_arrow_view(out.arrow)),
{
    let mut v = render_event_line(&out.primary);
    match &out.arrow {
        Some(a) => {
            let line = render_arrow_line(a);
            push_vec(&mut v, &line);
        },
        None => {
            proof {
                assert(v@ =~= spec_event_line(out.primary@) + Seq::<u8>::empty());
            }
        },
    }
    v
}

} // verus!
