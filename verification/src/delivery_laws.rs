//! What cutting, framing and handing on entries comes to.

use crate::bark::ManifestModel;
use crate::consumer::ReportModel;
use crate::entry::{
    annotation, chunk_pushed, concatenated, cutting_lines_loses_nothing, distance, entry_closed,
    entry_lines, facing, finished, framed, head_of, heads_of, lemma_concatenated_first, line_taken,
    lines_taken, outside, padded, prefixed, probed, record_head, remainder, tripped, whole_lines,
    Flow, FramingModel, SinkModel, WindowModel,
};
use crate::feed::{
    acknowledged, after_report, announced, fed_index, forwarded, last_chunk, last_write,
    not_reached, reached, report_outcome, spliced, AnswerRecord, FedModel, FeedError, Pending,
    Splice, Taken,
};
use crate::follow::{
    file_lines, fragment_said, gone_said, is_replaced, is_shrunk, poll_said, polled, replaced_said,
    resynced_all, shrunk_said, FollowModel, ResyncModel, Stat, TimedLine,
};
use crate::lists::lemma_push;
use crate::text::decimal;
use crate::wire::{find_byte, lemma_find_byte, lemma_find_byte_is};
use vstd::prelude::*;
use vstd::utf8::encode_utf8;

verus! {

// ------------------------------------------------------------------ entries

/// A line with a stamp starts an entry, in the chunk and the window that it
/// stands in, behind whatever closing the last entry says; a line without one
/// goes on with the entry that is open, whose stamp, chunk and window stay,
/// until the entry would be over 16 MiB, and then starts one.
pub proof fn a_stamp_starts_an_entry(f: Flow, line: Seq<u8>, stamp: Option<u64>)
    ensures
        ({
            let g = line_taken(f, line, stamp);
            let long = f.sink.entry.len() + line.len() > 16 * 1024 * 1024;
            &&& stamp is Some ==> {
                &&& g.out == entry_closed(f).out
                &&& g.count == entry_closed(f).count
                &&& g.sink.entry == line
                &&& g.sink.entry_ts == stamp
                &&& g.sink.entry_chunk == f.sink.cur_chunk
                &&& g.sink.entry_win == f.sink.cur_win
                &&& g.sink.stamped == f.sink.stamped + 1
                &&& g.sink.offset_n == f.sink.offset_n + 1
                &&& g.sink.offset_sum == f.sink.offset_sum + outside(
                    stamp->Some_0,
                    f.sink.cur_win,
                )
            }
            &&& stamp is None ==> {
                &&& g.sink.stamped == f.sink.stamped
                &&& g.sink.offset_n == f.sink.offset_n
                &&& g.sink.offset_sum == f.sink.offset_sum
            }
            &&& stamp is None && f.sink.entry.len() > 0 && !long ==> {
                &&& g.out == f.out
                &&& g.sink.entry == f.sink.entry + line
                &&& g.sink.entry_ts == f.sink.entry_ts
                &&& g.sink.entry_chunk == f.sink.entry_chunk
                &&& g.sink.entry_win == f.sink.entry_win
            }
            &&& stamp is None && f.sink.entry.len() > 0 && long ==> {
                &&& g.out == entry_closed(f).out
                &&& g.sink.entry == line
                &&& g.sink.entry_ts is None
                &&& g.sink.entry_chunk == f.sink.cur_chunk
                &&& g.sink.entry_win == f.sink.cur_win
            }
            &&& stamp is None && f.sink.entry.len() == 0 ==> {
                &&& g.out == f.out
                &&& g.sink.entry == line
                &&& g.sink.entry_chunk == f.sink.cur_chunk
                &&& g.sink.entry_win == f.sink.cur_win
            }
        }),
{
    let g = line_taken(f, line, stamp);
    if stamp is None && (f.sink.entry.len() == 0 || f.sink.entry.len() + line.len() > 16 * 1024
        * 1024) {
        assert(g.sink.entry =~= line);
    }
}

/// Past the cap an entry is counted as held back and nothing leaves; below it
/// the entry leaves and is counted, against the cap only where there is one.
pub proof fn an_entry_counts_against_the_cap(f: Flow)
    requires
        f.sink.entry.len() > 0,
        f.sink.window is None,
    ensures
        ({
            let g = entry_closed(f);
            &&& f.sink.max is Some && f.count >= f.sink.max->Some_0 ==> g.sink.suppressed
                == f.sink.suppressed + 1 && g.sink.emitted == f.sink.emitted && g.out == f.out
                && g.count == f.count
            &&& f.sink.max is Some && f.count < f.sink.max->Some_0 ==> g.sink.emitted
                == f.sink.emitted + 1 && g.count == f.count + 1 && g.sink.suppressed
                == f.sink.suppressed
            &&& f.sink.max is None ==> g.sink.emitted == f.sink.emitted + 1 && g.count == f.count
            &&& g.sink.entry.len() == 0 && g.sink.entry_ts is None
        }),
{
}

/// How far a stamp lies outside the window it was written in: nothing inside
/// it, before it as much as it is before the first write, behind it as much as
/// it is behind the last.
pub proof fn a_stamp_is_as_far_outside_as_it_is(ts: u64, win: WindowModel)
    requires
        ts < 0x8000_0000_0000_0000,
        win.first_ms <= win.last_ms < 0x8000_0000_0000_0000,
    ensures
        win.first_ms <= ts <= win.last_ms <==> outside(ts, win) == 0,
        ts < win.first_ms ==> ts - outside(ts, win) == win.first_ms,
        ts > win.last_ms ==> ts - outside(ts, win) == win.last_ms,
{
}

/// The stamps are taken to be off by a time zone only where there are twenty
/// of them at least and they are off, on the average, by a whole number of
/// hours to within five minutes, and by one hour at least.
pub proof fn whole_hours_off_are_noticed(s: SinkModel, hours: nat)
    requires
        s.offset_n > 0,
    ensures
        s.offset_n < 20 ==> tripped(s) is None,
        s.offset_n >= 20 && hours > 0 && off_by(s, hours) ==> tripped(s) is Some,
        tripped(s) is Some ==> exists|h: nat| h > 0 && #[trigger] off_by(s, h),
        tripped(s) is Some ==> {
            &&& tripped(s)->Some_0 < 0 <==> s.offset_sum < 0
            &&& s.offset_sum >= 0 ==> tripped(s)->Some_0 == s.offset_sum / (s.offset_n as int)
            &&& s.offset_sum < 0 ==> tripped(s)->Some_0 == -((-s.offset_sum) / (s.offset_n as int))
        },
{
    let m = average(s);
    let h = crate::entry::hours_off(m as int);
    if s.offset_n >= 20 && hours > 0 && off_by(s, hours) {
        assert(h == hours);
    }
    if tripped(s) is Some {
        assert(off_by(s, h));
        assert(m > 0);
    }
}

/// How far off the stamps are on the average, whichever way.
pub open spec fn average(s: SinkModel) -> nat {
    (if s.offset_sum < 0 {
        (-s.offset_sum) as nat
    } else {
        s.offset_sum as nat
    }) / s.offset_n
}

/// Whether the stamps are off by that many hours, to within five minutes.
pub open spec fn off_by(s: SinkModel, hours: nat) -> bool {
    hours * 60 * 60 * 1_000 - 5 * 60 * 1_000 < average(s) < hours * 60 * 60 * 1_000 + 5 * 60
        * 1_000
}

proof fn lemma_entry_lines(s: Seq<u8>)
    ensures
        concatenated(entry_lines(s)) == s,
    decreases s.len(),
{
    lemma_find_byte(s, 10);
    let k = find_byte(s, 10);
    if s.len() == 0 {
        assert(concatenated(entry_lines(s)) =~= s);
    } else if k < s.len() {
        let rest = s.skip(k + 1);
        lemma_entry_lines(rest);
        lemma_concatenated_first(s.take(k + 1), entry_lines(rest));
        assert(s =~= s.take(k + 1) + rest);
    } else {
        assert(seq![s].drop_last() =~= Seq::empty());
        assert(concatenated(seq![s]) =~= s) by {
            reveal_with_fuel(concatenated, 2);
        }
    }
}

proof fn lemma_bare(ls: Seq<Seq<u8>>, n: int)
    requires
        0 <= n <= ls.len(),
    ensures
        prefixed(ls, Seq::empty(), Seq::empty(), n) == concatenated(ls.take(n)),
    decreases n,
{
    if n > 0 {
        lemma_bare(ls, n - 1);
        assert(ls.take(n).drop_last() =~= ls.take(n - 1));
        assert(ls.take(n).last() == ls[n - 1]);
        assert(prefixed(ls, Seq::empty(), Seq::empty(), n) =~= concatenated(ls.take(n)));
    } else {
        assert(ls.take(0) =~= Seq::empty());
    }
}

/// Without a label and without a note an entry leaves as it is: byte for byte
/// as lines, and between ends as a text that a zero byte ends.
pub proof fn an_unlabelled_entry_leaves_as_it_is(
    f: FramingModel,
    entry: Seq<u8>,
    ts: Option<u64>,
    win: WindowModel,
    chunk: Option<u64>,
)
    requires
        f.label is None,
        !f.show_write,
        !f.records,
    ensures
        !f.null_sep ==> framed(f, entry, ts, win, chunk) == entry,
        f.null_sep && entry.len() > 0 && entry.last() == 10 ==> framed(f, entry, ts, win, chunk)
            == entry.drop_last().push(0),
        f.null_sep && (entry.len() == 0 || entry.last() != 10) ==> framed(f, entry, ts, win, chunk)
            == entry.push(0),
{
    if f.null_sep {
        let none = Seq::<u8>::empty();
        if entry.len() > 0 && entry.last() == 10 {
            assert(none + none + entry.drop_last() + seq![0u8] =~= entry.drop_last().push(0));
        } else {
            assert(none + none + entry + seq![0u8] =~= entry.push(0));
        }
    } else {
        let ls = entry_lines(entry);
        lemma_entry_lines(entry);
        lemma_bare(ls, ls.len() as int);
        assert(ls.take(ls.len() as int) =~= ls);
    }
}

/// As lines, every line of a labelled entry leaves behind the label and a
/// colon.
pub proof fn every_line_leaves_behind_the_label(
    f: FramingModel,
    line: Seq<u8>,
    rest: Seq<u8>,
    ts: Option<u64>,
    win: WindowModel,
    chunk: Option<u64>,
)
    requires
        f.label is Some,
        !f.show_write,
        !f.records,
        !f.null_sep,
        !line.contains(10),
    ensures
        framed(f, line + seq![10u8] + rest, ts, win, chunk) == f.label->Some_0 + seq![58u8] + line
            + seq![10u8] + framed(f, rest, ts, win, chunk),
        line.len() > 0 ==> framed(f, line, ts, win, chunk) == f.label->Some_0 + seq![58u8] + line,
{
    let prefix = f.label->Some_0.push(58);
    let none = Seq::<u8>::empty();
    let s = line + seq![10u8] + rest;
    assert forall|i: int| 0 <= i < line.len() implies (#[trigger] s[i]) != 10 && line[i] != 10 by {
        assert(s[i] == line[i]);
        assert(line.contains(line[i]));
    }
    assert(s[line.len() as int] == 10);
    lemma_find_byte_is(s, 10, line.len() as int);
    lemma_find_byte_is(line, 10, line.len() as int);
    assert(s.take(line.len() as int + 1) =~= line + seq![10u8]);
    assert(s.skip(line.len() as int + 1) =~= rest);
    let ls = entry_lines(rest);
    let all = entry_lines(s);
    assert(all =~= seq![line + seq![10u8]] + ls);
    lemma_prefixed(line + seq![10u8], ls, prefix, ls.len() as int);
    assert(framed(f, s, ts, win, chunk) =~= f.label->Some_0 + seq![58u8] + line + seq![10u8]
        + framed(f, rest, ts, win, chunk));
    if line.len() > 0 {
        assert(entry_lines(line) == seq![line]);
        reveal_with_fuel(prefixed, 2);
        assert(framed(f, line, ts, win, chunk) =~= f.label->Some_0 + seq![58u8] + line);
    }
}

proof fn lemma_prefixed(first: Seq<u8>, ls: Seq<Seq<u8>>, prefix: Seq<u8>, n: int)
    requires
        0 <= n <= ls.len(),
    ensures
        prefixed(seq![first] + ls, prefix, Seq::empty(), n + 1) == prefix + first + prefixed(
            ls,
            prefix,
            Seq::empty(),
            n,
        ),
    decreases n,
{
    let all = seq![first] + ls;
    let none = Seq::<u8>::empty();
    if n > 0 {
        lemma_prefixed(first, ls, prefix, n - 1);
        assert(all[n] == ls[n - 1]);
        assert(prefixed(all, prefix, none, n + 1) =~= prefix + first + prefixed(
            ls,
            prefix,
            none,
            n,
        ));
    } else {
        reveal_with_fuel(prefixed, 2);
        assert(prefixed(all, prefix, none, 1) =~= prefix + first + none);
    }
}

/// A number is padded with zeros in front, to the width and no further, and
/// never cut.
pub proof fn padding_changes_no_number(n: nat, width: nat)
    ensures
        padded(n, width).len() >= width,
        padded(n, width).len() > width ==> padded(n, width) == decimal(n),
        padded(n, width).skip(padded(n, width).len() - decimal(n).len()) == decimal(n),
        forall|i: int|
            0 <= i < padded(n, width).len() - decimal(n).len() ==> padded(n, width)[i] == '0',
{
    let d = decimal(n);
    assert(padded(n, width).skip(padded(n, width).len() - d.len()) =~= d);
}

/// The head of a line is the line, or its first 256 bytes where it is longer.
pub proof fn a_head_is_at_most_256_bytes(line: Seq<u8>)
    ensures
        line.len() <= 256 ==> head_of(line) == line && heads_of(seq![line]) == seq![line],
        line.len() > 256 ==> head_of(line) == line.take(256) && heads_of(seq![line]) == seq![
            line.take(256),
        ],
{
    assert(heads_of(seq![line]) =~= seq![head_of(line)]);
}

/// A probe takes the heads of the first thousand parts that are not empty, in
/// order.
pub proof fn a_probe_takes_the_first_thousand(parts: Seq<Seq<u8>>, n: int)
    requires
        0 <= n < parts.len(),
    ensures
        probed(parts, n).len() <= 1_000,
        parts[n].len() == 0 ==> probed(parts, n + 1) == probed(parts, n),
        parts[n].len() > 0 && probed(parts, n).len() == 1_000 ==> probed(parts, n + 1) == probed(
            parts,
            n,
        ),
        parts[n].len() > 0 && probed(parts, n).len() < 1_000 ==> probed(parts, n + 1) == probed(
            parts,
            n,
        ).push(head_of(parts[n])),
        probed(parts, 0).len() == 0,
    decreases n,
{
    if n > 0 {
        a_probe_takes_the_first_thousand(parts, n - 1);
    }
}

// --------------------------------------------------------------------- feed

/// A watermark reaches exactly what ends at it or before it.
pub proof fn a_watermark_reaches_what_ends_before_it(pending: Seq<Pending>, offset: u64)
    ensures
        forall|p: Pending|
            reached(pending, offset).contains(p) <==> pending.contains(p) && p.end <= offset,
        forall|p: Pending|
            not_reached(pending, offset).contains(p) <==> pending.contains(p) && p.end > offset,
    decreases pending.len(),
{
    if pending.len() > 0 {
        let front = pending.drop_last();
        let last = pending.last();
        a_watermark_reaches_what_ends_before_it(front, offset);
        assert(front.push(last) =~= pending);
        assert forall|p: Pending| reached(pending, offset).contains(p) <==> pending.contains(p)
            && p.end <= offset by {
            lemma_push(front, last, p);
            lemma_push(reached(front, offset), last, p);
        }
        assert forall|p: Pending| not_reached(pending, offset).contains(p) <==> pending.contains(p)
            && p.end > offset by {
            lemma_push(front, last, p);
            lemma_push(not_reached(front, offset), last, p);
        }
    }
}

/// The chunk that is acknowledged is the last of those that were reached, and
/// the write the latest: each is one of theirs, and none of theirs is later.
pub proof fn what_is_acknowledged_is_the_latest(v: Seq<Pending>)
    ensures
        last_chunk(v) is None <==> forall|i: int| 0 <= i < v.len()
            ==> (#[trigger] v[i]).chunk is None,
        last_chunk(v) is Some ==> exists|i: int|
            0 <= i < v.len() && (#[trigger] v[i]).chunk == last_chunk(v),
        forall|i: int|
            0 <= i < v.len() && (#[trigger] v[i]).chunk is Some ==> v[i].chunk->Some_0
                <= last_chunk(v)->Some_0,
        forall|i: int| 0 <= i < v.len() ==> (#[trigger] v[i]).wl <= last_write(v),
        last_write(v) > 0 ==> exists|i: int| 0 <= i < v.len()
            && (#[trigger] v[i]).wl == last_write(v),
    decreases v.len(),
{
    if v.len() > 0 {
        let front = v.drop_last();
        let last = v.last();
        what_is_acknowledged_is_the_latest(front);
        assert forall|i: int| 0 <= i < front.len() implies #[trigger] front[i] == v[i] by {}
        assert(v[v.len() - 1] == last);
        if last_chunk(front) is Some {
            let i = choose|i: int|
                0 <= i < front.len() && (#[trigger] front[i]).chunk == last_chunk(front);
            assert(v[i].chunk == last_chunk(front));
        }
        if last_write(front) > 0 {
            let i = choose|i: int|
                0 <= i < front.len() && (#[trigger] front[i]).wl == last_write(front);
            assert(v[i].wl == last_write(front));
        }
        assert forall|i: int|
            0 <= i < v.len() && (#[trigger] v[i]).chunk is Some implies v[i].chunk->Some_0
            <= last_chunk(v)->Some_0 by {
            if i < front.len() {
                assert(front[i].chunk is Some);
            }
        }
        assert forall|i: int| 0 <= i < v.len() implies (#[trigger] v[i]).wl <= last_write(v) by {
            if i < front.len() {
                assert(front[i].wl <= last_write(front));
            }
        }
        if forall|i: int| 0 <= i < v.len() ==> (#[trigger] v[i]).chunk is None {
            assert forall|i: int| 0 <= i < front.len() implies (#[trigger] front[i]).chunk
                is None by {
                assert(v[i].chunk is None);
            }
            assert(v[v.len() - 1].chunk is None);
        }
        if last_chunk(v) is None {
            assert forall|i: int| 0 <= i < v.len() implies (#[trigger] v[i]).chunk is None by {
                if i < front.len() {
                    assert(front[i].chunk is None);
                }
            }
        }
    }
}

proof fn lemma_fed_index(v: Seq<FedModel>, id: Seq<char>, i: int)
    requires
        0 <= i <= v.len(),
    ensures
        i <= fed_index(v, id, i) <= v.len(),
        forall|j: int| i <= j < fed_index(v, id, i) ==> (#[trigger] v[j]).id != id,
        fed_index(v, id, i) < v.len() ==> v[fed_index(v, id, i)].id == id,
    decreases v.len() - i,
{
    if i < v.len() && v[i].id != id {
        lemma_fed_index(v, id, i + 1);
    }
}

/// Whether no store is fed twice.
pub open spec fn fed_once(v: Seq<FedModel>) -> bool {
    forall|i: int, j: int| 0 <= i < j < v.len() ==> (#[trigger] v[i]).id != (#[trigger] v[j]).id
}

/// A report on one store moves that store alone: what it has reached is
/// acknowledged and no longer waits, and of every other store nothing changes.
pub proof fn a_report_moves_its_own_store(v: Seq<FedModel>, id: Seq<char>, offset: u64, i: int)
    requires
        fed_once(v),
        0 <= i < v.len(),
    ensures
        ({
            let now = after_report(v, ReportModel::Progress { id, offset });
            &&& now.len() == v.len()
            &&& now[i].id == v[i].id && now[i].path == v[i].path && now[i].announced
                == v[i].announced
            &&& v[i].id != id ==> now[i] == v[i]
            &&& v[i].id == id ==> forall|p: Pending|
                #![trigger now[i].pending.contains(p)]
                now[i].pending.contains(p) <==> v[i].pending.contains(p) && p.end > offset
            &&& v[i].id == id ==> acknowledged(v[i], offset).delivered + now[i].pending.len()
                == v[i].pending.len()
            &&& acknowledged(v[i], offset).offset == offset
            &&& acknowledged(v[i], offset).id == v[i].id
            &&& acknowledged(v[i], offset).path == v[i].path
        }),
{
    lemma_fed_index(v, id, 0);
    let k = fed_index(v, id, 0);
    if v[i].id == id && k < i {
        assert(v[k].id != v[i].id);
    }
    a_watermark_reaches_what_ends_before_it(v[i].pending, offset);
    crate::feed::an_entry_is_delivered_once(v[i].pending, offset);
    let now = after_report(v, ReportModel::Progress { id, offset });
    assert(v[i].id == id ==> k == i);
    assert(v[i].id == id ==> now[i].pending == not_reached(v[i].pending, offset));
    if v[i].id == id {
        assert forall|p: Pending| #[trigger] now[i].pending.contains(p) <==> v[i].pending.contains(
            p,
        ) && p.end > offset by {}
    }
}

/// A store is announced where its labels are new to the consumer and not
/// otherwise, and announcing one changes no other.
pub proof fn a_store_is_announced_where_its_labels_are_new(
    v: Seq<FedModel>,
    id: Seq<char>,
    path: Seq<char>,
    labels: ManifestModel,
    i: int,
)
    requires
        fed_once(v),
        0 <= i < v.len(),
    ensures
        ({
            let (now, said) = announced(v, id, path, labels);
            &&& v[i].id == id ==> (said is None <==> v[i].announced == Some(labels))
            &&& v[i].id == id ==> now[i].announced == Some(labels) && now[i].pending
                == v[i].pending && now[i].id == id && now.len() == v.len()
            &&& v[i].id == id && said is Some ==> now[i].path == path
            &&& v[i].id != id ==> now[i] == v[i]
            &&& (forall|j: int| 0 <= j < v.len() ==> (#[trigger] v[j]).id != id) ==> said is Some
                && now == v.push(
                (FedModel { id, path, announced: Some(labels), pending: Seq::empty() }),
            )
        }),
{
    lemma_fed_index(v, id, 0);
    let k = fed_index(v, id, 0);
    if v[i].id == id && k < i {
        assert(v[k].id != v[i].id);
    }
}

/// The bytes of the entries among the records, in order.
pub open spec fn entry_bytes(records: Seq<AnswerRecord>) -> Seq<u8>
    decreases records.len(),
{
    if records.len() == 0 {
        Seq::empty()
    } else if records.last().kind is Entry {
        entry_bytes(records.drop_last()) + records.last().bytes@
    } else {
        entry_bytes(records.drop_last())
    }
}

/// Whether an entry can be acknowledged: it says what store it is of, and where
/// in it it stands.
pub open spec fn attributed(r: AnswerRecord) -> bool {
    r.kind is Entry ==> r.id is Some && r.offset is Some && r.len is Some
}

/// Every entry of an answer is passed on, in order, and nothing else is; an
/// answer is refused exactly where an entry cannot be acknowledged; and there
/// is more where the last end of the answer says so.
pub proof fn every_entry_is_passed_on(stores: Seq<FedModel>, records: Seq<AnswerRecord>)
    ensures
        spliced(stores, records) is Ok <==> forall|i: int|
            0 <= i < records.len() ==> attributed(#[trigger] records[i]),
        spliced(stores, records) is Ok ==> {
            let s = spliced(stores, records)->Ok_0;
            &&& s.out == entry_bytes(records)
            &&& s.stores.len() == stores.len()
            &&& records.len() > 0 && records.last().kind is StreamEnd ==> s.more
                == records.last().limited
            &&& records.len() > 0 && !(records.last().kind is StreamEnd) ==> s.more == spliced(
                stores,
                records.drop_last(),
            )->Ok_0.more
            &&& records.len() == 0 ==> !s.more
        },
    decreases records.len(),
{
    if records.len() > 0 {
        let front = records.drop_last();
        every_entry_is_passed_on(stores, front);
        if spliced(stores, front) is Ok && records.last().id is Some {
            lemma_fed_index(spliced(stores, front)->Ok_0.stores, records.last().id->Some_0@, 0);
        }
        assert(records[records.len() - 1] == records.last());
        assert forall|i: int| 0 <= i < front.len() implies #[trigger] front[i] == records[i] by {}
        if forall|i: int| 0 <= i < records.len() ==> attributed(#[trigger] records[i]) {
            assert(attributed(records[records.len() - 1]));
            assert forall|i: int| 0 <= i < front.len() implies attributed(#[trigger] front[i]) by {
                assert(attributed(records[i]));
            }
        }
        if spliced(stores, records) is Ok {
            assert forall|i: int| 0 <= i < records.len() implies attributed(
                #[trigger] records[i],
            ) by {
                if i < front.len() {
                    assert(attributed(front[i]));
                }
            }
        }
    }
}

/// An entry that is passed on waits to be acknowledged in its own store, at
/// where it ends, and in no other.
pub proof fn an_entry_waits_in_its_own_store(s: Splice, r: AnswerRecord, i: int)
    requires
        fed_once(s.stores),
        0 <= i < s.stores.len(),
        r.kind is Entry,
        attributed(r),
        r.offset->Some_0 + r.len->Some_0 <= u64::MAX,
    ensures
        ({
            let now = crate::feed::spliced_one(s, r)->Ok_0.stores;
            &&& s.stores[i].id != r.id->Some_0@ ==> now[i] == s.stores[i]
            &&& s.stores[i].id == r.id->Some_0@ ==> {
                &&& now[i].pending.len() == s.stores[i].pending.len() + 1
                &&& now[i].pending.drop_last() == s.stores[i].pending
                &&& now[i].pending.last().end == r.offset->Some_0 + r.len->Some_0
                &&& now[i].pending.last().chunk == r.chunk
                &&& now[i].pending.last().wl == (if r.wl is Some {
                    r.wl->Some_0
                } else {
                    0
                })
            }
        }),
{
    lemma_fed_index(s.stores, r.id->Some_0@, 0);
    let k = fed_index(s.stores, r.id->Some_0@, 0);
    if s.stores[i].id == r.id->Some_0@ && k < i {
        assert(s.stores[k].id != s.stores[i].id);
    }
    if s.stores[i].id == r.id->Some_0@ {
        let now = crate::feed::spliced_one(s, r)->Ok_0.stores;
        assert(now[i].pending.drop_last() =~= s.stores[i].pending);
    }
}

// ------------------------------------------------------------------- follow

/// A file is another where its device or its number is another, and was cut
/// short where it is the same and shorter than what was read of it.
pub proof fn a_file_is_told_by_its_number(f: FollowModel, dev: u64, ino: u64, len: u64)
    ensures
        is_replaced(f, Stat::There { dev, ino, len }) <==> (dev, ino) != (f.dev, f.ino),
        is_shrunk(f, Stat::There { dev, ino, len }) <==> (dev, ino) == (f.dev, f.ino) && len
            < f.offset,
        !is_replaced(f, Stat::Missing) && !is_shrunk(f, Stat::Missing),
        !is_replaced(f, Stat::Failed) && !is_shrunk(f, Stat::Failed),
{
}

/// A turn takes a follower as far as it read: in the file it holds, as many
/// bytes on as were read; in one that was cut short, and in another, as many
/// from the start. All that was read is counted, and a file is only ever left
/// for the one that took its place.
pub proof fn a_turn_takes_a_follower_as_far_as_it_read(
    f: FollowModel,
    stat: Stat,
    tail: Seq<u8>,
    bytes: Seq<u8>,
)
    requires
        f.offset + tail.len() + bytes.len() <= u64::MAX,
        f.total + tail.len() + bytes.len() <= u64::MAX,
        !is_replaced(f, stat) ==> tail.len() == 0,
    ensures
        ({
            let g = polled(f, stat, tail, bytes).0;
            let lines = polled(f, stat, tail, bytes).1;
            &&& g.total == f.total + tail.len() + bytes.len()
            &&& is_replaced(f, stat) ==> g.dev == stat->dev && g.ino == stat->ino && g.offset
                == bytes.len()
            &&& !is_replaced(f, stat) ==> g.dev == f.dev && g.ino == f.ino
            &&& is_shrunk(f, stat) ==> g.offset == bytes.len() && concatenated(lines) + g.pending
                == bytes
            &&& !is_replaced(f, stat) && !is_shrunk(f, stat) ==> g.offset == f.offset + bytes.len()
            &&& stat is Missing ==> g.missing_noted
            &&& stat is There ==> !g.missing_noted
            &&& stat is Failed ==> g.missing_noted == f.missing_noted
            &&& !g.pending.contains(10)
        }),
{
    lemma_find_byte(bytes, 10);
    lemma_no_newline(bytes);
    lemma_no_newline(f.pending + bytes);
    if is_shrunk(f, stat) {
        assert(Seq::<u8>::empty() + bytes =~= bytes);
        cutting_lines_loses_nothing(bytes);
    }
}

proof fn lemma_no_newline(s: Seq<u8>)
    ensures
        !remainder(s).contains(10),
    decreases s.len(),
{
    lemma_find_byte(s, 10);
    let k = find_byte(s, 10);
    if k < s.len() {
        lemma_no_newline(s.skip(k + 1));
    } else if s.contains(10) {
        let i = choose|i: int| 0 <= i < s.len() && s[i] == 10;
        assert(s[i] != 10);
    }
}

/// Every line that is handed out ends with its one line feed.
pub proof fn every_whole_line_ends_with_its_line_feed(s: Seq<u8>, i: int)
    requires
        0 <= i < whole_lines(s).len(),
    ensures
        whole_lines(s)[i].len() > 0,
        whole_lines(s)[i].last() == 10,
        !whole_lines(s)[i].drop_last().contains(10),
    decreases s.len(),
{
    lemma_find_byte(s, 10);
    let k = find_byte(s, 10);
    let rest = s.skip(k + 1);
    if i > 0 {
        every_whole_line_ends_with_its_line_feed(rest, i - 1);
        assert(whole_lines(s)[i] == whole_lines(rest)[i - 1]);
    } else {
        let first = s.take(k + 1);
        assert(whole_lines(s)[0] == first);
        if first.drop_last().contains(10) {
            let j = choose|j: int| 0 <= j < first.drop_last().len() && first.drop_last()[j] == 10;
            assert(s[j] == 10);
        }
    }
}

/// A file that is done is read to its last byte, newline or not; one that is
/// still written to, to its last whole line.
pub proof fn a_file_that_is_done_is_read_to_its_last_byte(content: Seq<u8>)
    ensures
        concatenated(file_lines(content, false)) == content,
        file_lines(content, true) == whole_lines(content),
        file_lines(content, false).len() <= file_lines(content, true).len() + 1,
{
    cutting_lines_loses_nothing(content);
    let ls = whole_lines(content);
    let r = remainder(content);
    assert(ls + Seq::<Seq<u8>>::empty() =~= ls);
    if r.len() > 0 {
        assert((ls + seq![r]).drop_last() =~= ls);
        assert((ls + seq![r]).last() == r);
    } else {
        assert(concatenated(ls) + r =~= concatenated(ls));
    }
}

/// A distance is said to the second and thousandths below a minute, in minutes
/// and seconds below an hour, and in hours and minutes from there on, behind a
/// sign that says which way.
pub proof fn a_distance_is_said_as_finely_as_it_matters(d: int)
    ensures
        ({
            let m = if d < 0 {
                -d
            } else {
                d
            };
            let sign = if d < 0 {
                "-"@
            } else {
                "+"@
            };
            &&& m < 60_000 ==> distance(d) == " "@ + sign + decimal((m / 1_000) as nat) + "."@
                + padded((m % 1_000) as nat, 3) + "s"@
            &&& 60_000 <= m < 3_600_000 ==> distance(d) == " "@ + sign + decimal(
                (m / 60_000) as nat,
            ) + "m"@ + padded((m / 1_000 % 60) as nat, 2) + "s"@
            &&& m >= 3_600_000 ==> distance(d) == " "@ + sign + decimal((m / 3_600_000) as nat)
                + "h"@ + padded((m / 60_000 % 60) as nat, 2) + "m"@
        }),
{
    let m = if d < 0 {
        -d
    } else {
        d
    };
    assert(m / 1_000 / 60 == m / 60_000);
    assert(m / 1_000 / 3_600 == m / 3_600_000);
    assert((m / 1_000 % 3_600) / 60 == m / 60_000 % 60);
}

/// An entry is annotated with the window that it was written in, and how far its
/// stamp is outside it, where it is.
pub proof fn a_stamp_outside_its_window_is_said(ts: u64, win: WindowModel)
    ensures
        annotation(None, win) == "[w "@ + win.shown + "] "@,
        win.first_ms <= ts <= win.last_ms ==> annotation(Some(ts), win) == annotation(None, win),
        !(win.first_ms <= ts <= win.last_ms) ==> annotation(Some(ts), win) == "[w "@ + win.shown
            + distance(outside(ts, win)) + "] "@,
{
    assert("[w "@ + win.shown + Seq::<char>::empty() + "] "@ =~= "[w "@ + win.shown + "] "@);
}

/// The head of a record says its length first, its stamp where it has one, the
/// window it was written in, and its chunk where it is in one.
pub proof fn the_head_of_a_record_says_what_it_has(
    len: nat,
    ts: u64,
    win: WindowModel,
    chunk: u64,
)
    ensures
        record_head(len, None, win, None) == "\u{1e}entry\u{1f}len="@ + decimal(len)
            + "\u{1f}wf="@ + decimal(win.first_ms as nat) + "\u{1f}wl="@ + decimal(
            win.last_ms as nat,
        ),
        record_head(len, None, win, Some(chunk)) == record_head(len, None, win, None)
            + "\u{1f}chunk="@ + decimal(chunk as nat),
        record_head(len, Some(ts), win, Some(chunk)) == record_head(len, Some(ts), win, None)
            + "\u{1f}chunk="@ + decimal(chunk as nat),
        record_head(len, Some(ts), win, None) == "\u{1e}entry\u{1f}len="@ + decimal(len)
            + "\u{1f}ts="@ + decimal(ts as nat) + "\u{1f}wf="@ + decimal(win.first_ms as nat)
            + "\u{1f}wl="@ + decimal(win.last_ms as nat),
{
    assert(record_head(len, None, win, None) =~= "\u{1e}entry\u{1f}len="@ + decimal(len)
        + "\u{1f}wf="@ + decimal(win.first_ms as nat) + "\u{1f}wl="@ + decimal(
        win.last_ms as nat,
    ));
    assert(record_head(len, None, win, Some(chunk)) =~= record_head(len, None, win, None)
        + "\u{1f}chunk="@ + decimal(chunk as nat));
    assert(record_head(len, Some(ts), win, Some(chunk)) =~= record_head(len, Some(ts), win, None)
        + "\u{1f}chunk="@ + decimal(chunk as nat));
    assert(record_head(len, Some(ts), win, None) =~= "\u{1e}entry\u{1f}len="@ + decimal(len)
        + "\u{1f}ts="@ + decimal(ts as nat) + "\u{1f}wf="@ + decimal(win.first_ms as nat)
        + "\u{1f}wl="@ + decimal(win.last_ms as nat));
}

proof fn lemma_taken_keeps(f: Flow, ls: Seq<Seq<u8>>, stamps: Seq<Option<u64>>, n: int)
    requires
        0 <= n,
    ensures
        lines_taken(f, ls, stamps, n).sink.line == f.sink.line,
        lines_taken(f, ls, stamps, n).sink.cur_win == f.sink.cur_win,
        lines_taken(f, ls, stamps, n).sink.cur_chunk == f.sink.cur_chunk,
    decreases n,
{
    if n > 0 {
        lemma_taken_keeps(f, ls, stamps, n - 1);
    }
}

proof fn lemma_taken_parts(
    f: Flow,
    a: Seq<Seq<u8>>,
    s: Seq<Option<u64>>,
    b: Seq<Seq<u8>>,
    t: Seq<Option<u64>>,
    n: int,
)
    requires
        a.len() == s.len(),
        0 <= n <= b.len(),
        b.len() == t.len(),
    ensures
        lines_taken(f, a + b, s + t, a.len() + n) == lines_taken(
            lines_taken(f, a, s, a.len() as int),
            b,
            t,
            n,
        ),
    decreases n,
{
    if n == 0 {
        lemma_taken_front(f, a, s, b, t, a.len() as int);
    } else {
        lemma_taken_parts(f, a, s, b, t, n - 1);
        assert((a + b)[a.len() + n - 1] == b[n - 1]);
        assert((s + t)[a.len() + n - 1] == t[n - 1]);
    }
}

proof fn lemma_taken_front(
    f: Flow,
    a: Seq<Seq<u8>>,
    s: Seq<Option<u64>>,
    b: Seq<Seq<u8>>,
    t: Seq<Option<u64>>,
    n: int,
)
    requires
        a.len() == s.len(),
        0 <= n <= a.len(),
    ensures
        lines_taken(f, a + b, s + t, n) == lines_taken(f, a, s, n),
    decreases n,
{
    if n > 0 {
        lemma_taken_front(f, a, s, b, t, n - 1);
    }
}

/// How a chunk is cut into pushes changes nothing: what two pushes of one chunk
/// leave is what one push of both leaves. What is pushed is of the chunk and the
/// window that it is pushed with, and what has no line feed yet waits.
pub proof fn how_a_chunk_is_cut_changes_nothing(
    f: Flow,
    a: Seq<u8>,
    s: Seq<Option<u64>>,
    b: Seq<u8>,
    t: Seq<Option<u64>>,
    chunk: Option<u64>,
    win: WindowModel,
)
    requires
        s.len() == whole_lines(f.sink.line + a).len(),
        t.len() == whole_lines(remainder(f.sink.line + a) + b).len(),
    ensures
        chunk_pushed(chunk_pushed(f, a, s, chunk, win), b, t, chunk, win) == chunk_pushed(
            f,
            a + b,
            s + t,
            chunk,
            win,
        ),
        chunk_pushed(f, a, s, chunk, win).sink.cur_chunk == chunk,
        chunk_pushed(f, a, s, chunk, win).sink.cur_win == win,
        !chunk_pushed(f, a, s, chunk, win).sink.line.contains(10),
        s.len() == 0 ==> chunk_pushed(f, a, s, chunk, win).out == f.out && chunk_pushed(
            f,
            a,
            s,
            chunk,
            win,
        ).sink.entry == f.sink.entry && chunk_pushed(f, a, s, chunk, win).sink.line == f.sink.line
            + a,
{
    let whole = f.sink.line + a;
    let first = chunk_pushed(f, a, s, chunk, win);
    let ls = whole_lines(whole);
    let ms = whole_lines(remainder(whole) + b);
    crate::follow::reading_in_pieces_changes_nothing(whole, b);
    assert(f.sink.line + (a + b) =~= whole + b);
    let start = facing(f, chunk, win);
    let mid = lines_taken(start, ls, s, ls.len() as int);
    lemma_taken_keeps(start, ls, s, ls.len() as int);
    assert(facing(first, chunk, win) == mid);
    lemma_taken_parts(start, ls, s, ms, t, ms.len() as int);
    lemma_no_newline(whole);
    if s.len() == 0 {
        cutting_lines_loses_nothing(whole);
        assert(concatenated(ls) =~= Seq::empty());
        assert(concatenated(ls) + remainder(whole) =~= remainder(whole));
    }
}

/// What a turn of a follower says: that the file was replaced, behind the line
/// that was cut off where there was one; that it shrank; that it is gone, once;
/// and otherwise nothing.
pub proof fn a_turn_says_what_became_of_the_file(
    source: Seq<char>,
    f: FollowModel,
    stat: Stat,
    tail: Seq<u8>,
)
    ensures
        ({
            let said = poll_said(source, f, stat, tail);
            let cut = remainder(f.pending + tail);
            &&& is_replaced(f, stat) ==> said.len() == (if cut.len() > 0 {
                2int
            } else {
                1int
            }) && said.last() == replaced_said(source, tail.len())
            &&& is_replaced(f, stat) && cut.len() > 0 ==> said[0] == fragment_said(cut.len())
            &&& is_shrunk(f, stat) ==> said == seq![shrunk_said(source, f.offset, stat->len)]
            &&& stat is Missing ==> said == (if f.missing_noted {
                Seq::<Seq<char>>::empty()
            } else {
                seq![gone_said(source)]
            })
            &&& !is_replaced(f, stat) && !is_shrunk(f, stat) && !(stat is Missing) ==> said.len()
                == 0
        }),
{
}

/// Every line that is held against a store is counted once: as held already, or
/// as added, and what is added is as many as are new.
pub proof fn every_line_is_counted_once(m: ResyncModel, lines: Seq<TimedLine>)
    requires
        m.added + lines.len() <= u64::MAX,
        m.skipped + lines.len() <= u64::MAX,
    ensures
        ({
            let (end, new) = resynced_all(m, lines);
            &&& new.len() <= lines.len()
            &&& end.added == m.added + new.len()
            &&& end.added + end.skipped == m.added + m.skipped + lines.len()
            &&& end.until == m.until
            &&& m.past ==> end.past
            &&& end.past <==> m.past || exists|i: int|
                0 <= i < lines.len() && (#[trigger] lines[i]).at is Some && lines[i].at->Some_0
                    > m.until
        }),
    decreases lines.len(),
{
    if lines.len() > 0 {
        let front = lines.drop_last();
        every_line_is_counted_once(m, front);
        assert(lines[lines.len() - 1] == lines.last());
        assert forall|i: int| 0 <= i < front.len() implies #[trigger] front[i] == lines[i] by {}
        if exists|i: int|
            0 <= i < front.len() && (#[trigger] front[i]).at is Some && front[i].at->Some_0
                > m.until {
            let i = choose|i: int|
                0 <= i < front.len() && (#[trigger] front[i]).at is Some && front[i].at->Some_0
                    > m.until;
            assert(lines[i].at->Some_0 > m.until);
        }
        if exists|i: int|
            0 <= i < lines.len() && (#[trigger] lines[i]).at is Some && lines[i].at->Some_0
                > m.until {
            let i = choose|i: int|
                0 <= i < lines.len() && (#[trigger] lines[i]).at is Some && lines[i].at->Some_0
                    > m.until;
            if i < front.len() {
                assert(front[i].at->Some_0 > m.until);
            }
        }
    }
}

/// At the end a line that waits is taken as if it had ended, and the entry that
/// is open is closed; nothing waits behind.
pub proof fn nothing_waits_behind_the_end(f: Flow, stamp: Option<u64>)
    ensures
        f.sink.line.len() == 0 ==> finished(f, stamp) == entry_closed(f),
        f.sink.line.len() > 0 ==> finished(f, stamp).out == entry_closed(
            line_taken(
                (Flow { sink: SinkModel { line: Seq::empty(), ..f.sink }, ..f }),
                f.sink.line,
                stamp,
            ),
        ).out,
        finished(f, stamp).sink.line.len() == 0,
        finished(f, stamp).sink.entry.len() == 0,
{
}

/// A report is answered by its kind: progress moves the store that it is of, and
/// is passed over where nothing was sent from that store; a note is passed on as
/// it is said; and a second hello is refused.
pub proof fn a_report_is_answered_by_its_kind(
    v: Seq<FedModel>,
    rep: ReportModel,
    r: Result<Taken, FeedError>,
)
    requires
        fed_once(v),
        report_outcome(v, rep, r),
    ensures
        rep is Hello <==> r is Err,
        rep is Note <==> r is Ok && r->Ok_0 is Noted,
        rep is Note ==> r->Ok_0->text@ == rep->text && r->Ok_0->Noted_offset == rep->Note_offset,
        rep is Progress && (forall|i: int|
            0 <= i < v.len() ==> (#[trigger] v[i]).id != rep->Progress_id) ==> r->Ok_0 is Ignored,
        rep is Progress ==> forall|i: int|
            0 <= i < v.len() && (#[trigger] v[i]).id == rep->Progress_id ==> r->Ok_0 is Moved
                && r->Ok_0->Moved_0@ == acknowledged(v[i], rep->Progress_offset),
{
    if rep is Progress {
        let id = rep->Progress_id;
        lemma_fed_index(v, id, 0);
        let k = fed_index(v, id, 0);
        assert forall|i: int| 0 <= i < v.len() && (#[trigger] v[i]).id == id implies i == k by {
            if k < i {
                assert(v[k].id != v[i].id);
            }
        }
    }
}

/// What was passed on before an answer was refused stays passed on: every entry
/// up to the one that cannot be acknowledged.
pub proof fn what_was_passed_on_stays_passed_on(
    stores: Seq<FedModel>,
    records: Seq<AnswerRecord>,
    k: int,
)
    requires
        0 <= k <= records.len(),
        forall|i: int| 0 <= i < k ==> attributed(#[trigger] records[i]),
        k < records.len() ==> !attributed(records[k]),
    ensures
        forwarded(stores, records).out == entry_bytes(records.take(k)),
    decreases records.len(),
{
    if k == records.len() {
        every_entry_is_passed_on(stores, records);
        assert(records.take(k) =~= records);
        if records.len() == 0 {
        }
    } else {
        let front = records.drop_last();
        every_entry_is_passed_on(stores, records);
        assert(!attributed(records[k]));
        assert(spliced(stores, records) is Err);
        assert forall|i: int| 0 <= i < k implies attributed(#[trigger] front[i]) by {
            assert(front[i] == records[i]);
        }
        if k < front.len() {
            assert(front[k] == records[k]);
        }
        what_was_passed_on_stays_passed_on(stores, front, k);
        assert(front.take(k) =~= records.take(k));
    }
}

/// Where the window is shown it is shown once, on the first line of the entry,
/// behind the label.
pub proof fn the_window_is_shown_on_the_first_line(
    f: FramingModel,
    line: Seq<u8>,
    rest: Seq<u8>,
    ts: Option<u64>,
    win: WindowModel,
    chunk: Option<u64>,
)
    requires
        f.show_write,
        !f.records,
        !f.null_sep,
        !line.contains(10),
    ensures
        ({
            let label = if f.label is Some {
                f.label->Some_0.push(58)
            } else {
                Seq::empty()
            };
            framed(f, line + seq![10u8] + rest, ts, win, chunk) == label + encode_utf8(
                annotation(ts, win),
            ) + line + seq![10u8] + framed(
                (FramingModel { show_write: false, ..f }),
                rest,
                ts,
                win,
                chunk,
            )
        }),
{
    let prefix = if f.label is Some {
        f.label->Some_0.push(58)
    } else {
        Seq::empty()
    };
    let note = encode_utf8(annotation(ts, win));
    let plain = FramingModel { show_write: false, ..f };
    let s = line + seq![10u8] + rest;
    assert forall|i: int| 0 <= i < line.len() implies (#[trigger] s[i]) != 10 by {
        assert(s[i] == line[i]);
        assert(line.contains(line[i]));
    }
    assert(s[line.len() as int] == 10);
    lemma_find_byte_is(s, 10, line.len() as int);
    assert(s.take(line.len() as int + 1) =~= line + seq![10u8]);
    assert(s.skip(line.len() as int + 1) =~= rest);
    let ls = entry_lines(rest);
    assert(entry_lines(s) =~= seq![line + seq![10u8]] + ls);
    lemma_noted(line + seq![10u8], ls, prefix, note, ls.len() as int);
    assert(framed(f, s, ts, win, chunk) =~= prefix + note + line + seq![10u8] + framed(
        plain,
        rest,
        ts,
        win,
        chunk,
    ));
}

proof fn lemma_noted(first: Seq<u8>, ls: Seq<Seq<u8>>, prefix: Seq<u8>, note: Seq<u8>, n: int)
    requires
        0 <= n <= ls.len(),
    ensures
        prefixed(seq![first] + ls, prefix, note, n + 1) == prefix + note + first + prefixed(
            ls,
            prefix,
            Seq::empty(),
            n,
        ),
    decreases n,
{
    let all = seq![first] + ls;
    let none = Seq::<u8>::empty();
    if n > 0 {
        lemma_noted(first, ls, prefix, note, n - 1);
        assert(all[n] == ls[n - 1]);
        assert(prefixed(all, prefix, note, n + 1) =~= prefix + note + first + prefixed(
            ls,
            prefix,
            none,
            n,
        ));
    } else {
        reveal_with_fuel(prefixed, 2);
        assert(prefixed(all, prefix, note, 1) =~= prefix + note + first + none);
    }
}

/// As a record an entry leaves behind its head, and behind its label where it
/// has one, byte for byte, with a zero byte on either side.
pub proof fn a_record_holds_its_entry_between_zero_bytes(
    f: FramingModel,
    entry: Seq<u8>,
    ts: Option<u64>,
    win: WindowModel,
    chunk: Option<u64>,
)
    requires
        f.records,
    ensures
        f.label is None ==> framed(f, entry, ts, win, chunk) == encode_utf8(
            record_head(entry.len(), ts, win, chunk),
        ) + seq![0u8] + entry + seq![0u8],
        f.label is Some ==> framed(f, entry, ts, win, chunk) == encode_utf8(
            record_head(entry.len(), ts, win, chunk),
        ) + (encode_utf8("\u{1f}src="@) + f.label->Some_0) + seq![0u8] + entry + seq![0u8],
{
    if f.label is None {
        assert(framed(f, entry, ts, win, chunk) =~= encode_utf8(
            record_head(entry.len(), ts, win, chunk),
        ) + seq![0u8] + entry + seq![0u8]);
    }
}

} // verus!
