//! What a stream of records holds of the bytes that were pushed.

use crate::entry::{
    chunk_pushed, concatenated, cutting_lines_loses_nothing, entry_closed, facing, finished, framed,
    line_taken, lines_taken, remainder, whole_lines, Flow, FramingModel, SinkModel, WindowModel,
    ENTRY_CAP,
};
use vstd::prelude::*;

verus! {

/// An entry that left a sink, with what its metadata says of it. Its length is
/// the length of its payload.
pub struct EntryRecord {
    pub payload: Seq<u8>,
    pub ts: Option<u64>,
    pub win: WindowModel,
    pub chunk: Option<u64>,
}

/// Records as they leave a sink, one after another.
pub open spec fn records_framed(f: FramingModel, records: Seq<EntryRecord>) -> Seq<u8>
    decreases records.len(),
{
    if records.len() == 0 {
        Seq::empty()
    } else {
        let r = records.last();
        records_framed(f, records.drop_last()) + framed(f, r.payload, r.ts, r.win, r.chunk)
    }
}

/// The payloads of records, end to end.
pub open spec fn payloads(records: Seq<EntryRecord>) -> Seq<u8>
    decreases records.len(),
{
    if records.len() == 0 {
        Seq::empty()
    } else {
        payloads(records.drop_last()) + records.last().payload
    }
}

/// What is done with a sink before its end.
pub enum SinkOp {
    Push { data: Seq<u8>, stamps: Seq<Option<u64>>, chunk: Option<u64>, win: WindowModel },
    Flush,
}

/// What doing it comes to.
pub open spec fn op_done(f: Flow, op: SinkOp) -> Flow {
    match op {
        SinkOp::Push { data, stamps, chunk, win } => chunk_pushed(f, data, stamps, chunk, win),
        SinkOp::Flush => entry_closed(f),
    }
}

/// What doing all of a run comes to.
pub open spec fn ops_done(f: Flow, ops: Seq<SinkOp>) -> Flow
    decreases ops.len(),
{
    if ops.len() == 0 {
        f
    } else {
        op_done(ops_done(f, ops.drop_last()), ops.last())
    }
}

/// The bytes that a run pushes, end to end.
pub open spec fn bytes_pushed(ops: Seq<SinkOp>) -> Seq<u8>
    decreases ops.len(),
{
    if ops.len() == 0 {
        Seq::empty()
    } else {
        bytes_pushed(ops.drop_last()) + (match ops.last() {
            SinkOp::Push { data, .. } => data,
            SinkOp::Flush => Seq::empty(),
        })
    }
}

/// Whether a sink writes records, and keeps none back: no window is asked for,
/// and there is no limit.
pub open spec fn keeps_nothing_back(s: SinkModel) -> bool {
    s.framing.records && s.window is None && s.max is None
}

/// Whether `records` have left since `start`, and `all` is their payloads and
/// what is open.
spec fn told(start: Flow, f: Flow, all: Seq<u8>, records: Seq<EntryRecord>) -> bool {
    &&& keeps_nothing_back(f.sink)
    &&& f.sink.framing == start.sink.framing
    &&& f.out == start.out + records_framed(f.sink.framing, records)
    &&& payloads(records) + f.sink.entry == all
    &&& f.sink.emitted == start.sink.emitted + records.len()
    &&& f.sink.filtered_out == start.sink.filtered_out
    &&& f.sink.suppressed == start.sink.suppressed
}

proof fn lemma_closed(start: Flow, f: Flow, all: Seq<u8>, records: Seq<EntryRecord>) -> (r: Seq<
    EntryRecord,
>)
    requires
        told(start, f, all, records),
    ensures
        told(start, entry_closed(f), all, r),
        entry_closed(f).sink.entry.len() == 0,
        entry_closed(f).sink.line == f.sink.line,
        payloads(r) == all,
{
    let g = entry_closed(f);
    let s = f.sink;
    if s.entry.len() == 0 {
        assert(payloads(records) + s.entry =~= payloads(records));
        records
    } else {
        let one = EntryRecord {
            payload: s.entry,
            ts: s.entry_ts,
            win: s.entry_win,
            chunk: s.entry_chunk,
        };
        let r = records.push(one);
        assert(r.drop_last() =~= records);
        assert(r.last() == one);
        assert(g.out =~= start.out + records_framed(s.framing, r));
        assert(payloads(r) + g.sink.entry =~= all);
        assert(payloads(r) =~= all);
        r
    }
}

proof fn lemma_line(
    start: Flow,
    f: Flow,
    all: Seq<u8>,
    records: Seq<EntryRecord>,
    line: Seq<u8>,
    stamp: Option<u64>,
) -> (r: Seq<EntryRecord>)
    requires
        told(start, f, all, records),
    ensures
        told(start, line_taken(f, line, stamp), all + line, r),
        line_taken(f, line, stamp).sink.line == f.sink.line,
{
    let g = line_taken(f, line, stamp);
    if stamp is None && f.sink.entry.len() + line.len() <= ENTRY_CAP {
        assert(payloads(records) + (f.sink.entry + line) =~= all + line);
        records
    } else if stamp is None {
        let begun = if f.sink.entry.len() == 0 {
            Flow {
                sink: SinkModel {
                    entry_win: f.sink.cur_win,
                    entry_chunk: f.sink.cur_chunk,
                    ..f.sink
                },
                ..f
            }
        } else {
            f
        };
        let r = lemma_closed(start, begun, all, records);
        assert(entry_closed(begun).sink.entry + line =~= line);
        assert(payloads(r) + line =~= all + line);
        r
    } else {
        let r = lemma_closed(start, f, all, records);
        assert(payloads(r) + line =~= all + line);
        r
    }
}

proof fn lemma_lines(
    start: Flow,
    f: Flow,
    all: Seq<u8>,
    records: Seq<EntryRecord>,
    ls: Seq<Seq<u8>>,
    stamps: Seq<Option<u64>>,
    n: int,
) -> (r: Seq<EntryRecord>)
    requires
        told(start, f, all, records),
        0 <= n <= ls.len(),
    ensures
        told(start, lines_taken(f, ls, stamps, n), all + concatenated(ls.take(n)), r),
        lines_taken(f, ls, stamps, n).sink.line == f.sink.line,
    decreases n,
{
    if n == 0 {
        assert(ls.take(0) =~= Seq::empty());
        assert(all + concatenated(ls.take(0)) =~= all);
        records
    } else {
        let before = lemma_lines(start, f, all, records, ls, stamps, n - 1);
        let done = lines_taken(f, ls, stamps, n - 1);
        let so_far = all + concatenated(ls.take(n - 1));
        let r = lemma_line(start, done, so_far, before, ls[n - 1], stamps[n - 1]);
        assert(ls.take(n).drop_last() =~= ls.take(n - 1));
        assert(so_far + ls[n - 1] =~= all + concatenated(ls.take(n)));
        r
    }
}

proof fn lemma_op(
    start: Flow,
    f: Flow,
    all: Seq<u8>,
    records: Seq<EntryRecord>,
    op: SinkOp,
) -> (r: (Seq<u8>, Seq<EntryRecord>))
    requires
        told(start, f, all, records),
    ensures
        told(start, op_done(f, op), r.0, r.1),
        r.0 + op_done(f, op).sink.line == all + f.sink.line + (match op {
            SinkOp::Push { data, .. } => data,
            SinkOp::Flush => Seq::empty(),
        }),
{
    match op {
        SinkOp::Push { data, stamps, chunk, win } => {
            let whole = f.sink.line + data;
            let ls = whole_lines(whole);
            let n = ls.len() as int;
            let g = facing(f, chunk, win);
            assert(told(start, g, all, records));
            let r = lemma_lines(start, g, all, records, ls, stamps, n);
            let done = all + concatenated(ls.take(n));
            assert(ls.take(n) =~= ls);
            cutting_lines_loses_nothing(whole);
            let rest = remainder(whole);
            assert(done + rest =~= all + (concatenated(ls) + rest));
            assert(all + (f.sink.line + data) =~= all + f.sink.line + data);
            (done, r)
        },
        SinkOp::Flush => {
            let r = lemma_closed(start, f, all, records);
            assert(all + f.sink.line + Seq::<u8>::empty() =~= all + f.sink.line);
            (all, r)
        },
    }
}

proof fn lemma_ops(start: Flow, ops: Seq<SinkOp>) -> (r: (Seq<u8>, Seq<EntryRecord>))
    requires
        keeps_nothing_back(start.sink),
        start.sink.entry.len() == 0,
        start.sink.line.len() == 0,
    ensures
        told(start, ops_done(start, ops), r.0, r.1),
        r.0 + ops_done(start, ops).sink.line == bytes_pushed(ops),
    decreases ops.len(),
{
    if ops.len() == 0 {
        let none = Seq::<EntryRecord>::empty();
        let all = Seq::<u8>::empty();
        assert(payloads(none) + start.sink.entry =~= all);
        assert(start.out + records_framed(start.sink.framing, none) =~= start.out);
        assert(all + start.sink.line =~= bytes_pushed(ops));
        (all, none)
    } else {
        let front = ops.drop_last();
        let (all, records) = lemma_ops(start, front);
        let f = ops_done(start, front);
        lemma_op(start, f, all, records, ops.last())
    }
}

/// Framed as records, what was pushed leaves a sink byte for byte. Whatever
/// stamps the lines carry, and however the bytes were cut into chunks, what
/// leaves is a run of entry records, each behind the length of its payload,
/// whose payloads end to end are the bytes that were pushed. They are as many
/// as the sink counts, and none was filtered out or suppressed.
pub proof fn records_carry_every_byte(start: Flow, ops: Seq<SinkOp>, last: Option<u64>) -> (records:
    Seq<EntryRecord>)
    requires
        keeps_nothing_back(start.sink),
        start.sink.entry.len() == 0,
        start.sink.line.len() == 0,
    ensures
        ({
            let end = finished(ops_done(start, ops), last);
            &&& end.out == start.out + records_framed(start.sink.framing, records)
            &&& payloads(records) == bytes_pushed(ops)
            &&& end.sink.emitted == start.sink.emitted + records.len()
            &&& end.sink.filtered_out == start.sink.filtered_out
            &&& end.sink.suppressed == start.sink.suppressed
        }),
{
    let f = ops_done(start, ops);
    let (all, records) = lemma_ops(start, ops);
    if f.sink.line.len() > 0 {
        let cut = Flow { sink: SinkModel { line: Seq::empty(), ..f.sink }, ..f };
        assert(told(start, cut, all, records));
        let more = lemma_line(start, cut, all, records, f.sink.line, last);
        lemma_closed(start, line_taken(cut, f.sink.line, last), all + f.sink.line, more)
    } else {
        assert(all + f.sink.line =~= all);
        lemma_closed(start, f, all, records)
    }
}

} // verus!
