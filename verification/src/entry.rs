//! Streaming, push-based log-entry processing for the read path: group pushed
//! chunk bytes into entries (a stamped line plus its continuation lines),
//! filter them by the timestamps the lines themselves carry, and frame the
//! output as newline text, as NUL-terminated records, or as a typed record
//! stream, with optional write-time annotation.
//!
//! What stamp a line carries is asked outside: `heads` says which lines a push
//! completes, and the push takes the answers.

use crate::bark::signed;
use crate::text::{decimal, number_text, text};
use crate::tokens::byte_texts;
use crate::wire::{find_byte, position_of};
use vstd::prelude::*;
use vstd::slice::{slice_subrange, slice_to_vec};
use vstd::string::{StrSliceExecFns, StringExecFns};
use vstd::utf8::encode_utf8;

verus! {

/// A timestamp-less flood cannot balloon memory.
pub const ENTRY_CAP: usize = 0x100_0000;

/// How much of a line a stamp is looked for in.
pub const HEAD_LEN: usize = 256;

/// How entries leave the sink.
#[derive(Debug, Clone, PartialEq, Eq)]
pub struct Framing {
    /// NUL-terminated records instead of newline text: the entry's trailing
    /// newline is stripped, internal newlines kept.
    pub null_sep: bool,
    /// Typed record stream: each entry is preceded by a metadata record
    /// (RS-marked, US-separated k=v). Payload bytes are verbatim; `len` is
    /// authoritative and the closing NUL is a resync marker.
    pub records: bool,
    /// Annotate each entry with the write time it arrived at and, when the
    /// entry carries its own stamp outside that window, the offset.
    pub show_write: bool,
    /// Multi-file "path:" prefix: per line in text mode, once per record in
    /// NUL mode.
    pub label: Option<Vec<u8>>,
}

/// The wall-clock window a chunk was written in, and how its start reads.
#[derive(Debug, Clone, PartialEq, Eq)]
pub struct Window {
    pub first_ms: u64,
    pub last_ms: u64,
    /// The start as a time, for the annotation.
    pub shown: String,
}

/// What a framing is.
pub struct FramingModel {
    pub null_sep: bool,
    pub records: bool,
    pub show_write: bool,
    pub label: Option<Seq<u8>>,
}

/// What a write window is.
pub struct WindowModel {
    pub first_ms: u64,
    pub last_ms: u64,
    pub shown: Seq<char>,
}

impl View for Framing {
    type V = FramingModel;

    open spec fn view(&self) -> FramingModel {
        FramingModel {
            null_sep: self.null_sep,
            records: self.records,
            show_write: self.show_write,
            label: match self.label {
                Some(l) => Some(l@),
                None => None,
            },
        }
    }
}

impl View for Window {
    type V = WindowModel;

    open spec fn view(&self) -> WindowModel {
        WindowModel { first_ms: self.first_ms, last_ms: self.last_ms, shown: self.shown@ }
    }
}

/// What a sink is and holds.
pub struct SinkModel {
    pub window: Option<(u64, u64)>,
    pub framing: FramingModel,
    pub max: Option<u64>,
    pub line: Seq<u8>,
    pub entry: Seq<u8>,
    pub entry_ts: Option<u64>,
    pub entry_win: WindowModel,
    pub entry_chunk: Option<u64>,
    pub cur_win: WindowModel,
    pub cur_chunk: Option<u64>,
    pub emitted: nat,
    pub suppressed: nat,
    pub filtered_out: nat,
    pub stamped: nat,
    pub offset_sum: int,
    pub offset_n: nat,
}

/// A sink, the count it shares with its siblings, and what has left it.
pub struct Flow {
    pub sink: SinkModel,
    pub count: nat,
    pub out: Seq<u8>,
}

// ------------------------------------------------------------------ framing

/// A number in at least `width` digits.
pub open spec fn padded(n: nat, width: nat) -> Seq<char> {
    let d = decimal(n);
    if d.len() >= width {
        d
    } else {
        Seq::new((width - d.len()) as nat, |i: int| '0') + d
    }
}

/// How far a stamp lies outside a write window: zero inside it.
pub open spec fn outside(ts: u64, win: WindowModel) -> int {
    if ts < win.first_ms {
        signed(ts) - signed(win.first_ms)
    } else if ts > win.last_ms {
        signed(ts) - signed(win.last_ms)
    } else {
        0
    }
}

/// A distance in milliseconds, in the largest units that fit.
pub open spec fn distance(d: int) -> Seq<char> {
    let sign = if d < 0 {
        "-"@
    } else {
        "+"@
    };
    let m = if d < 0 {
        -d as nat
    } else {
        d as nat
    };
    let s = m / 1000;
    if s >= 3600 {
        " "@ + sign + decimal(s / 3600) + "h"@ + padded((s % 3600) / 60, 2) + "m"@
    } else if s >= 60 {
        " "@ + sign + decimal(s / 60) + "m"@ + padded(s % 60, 2) + "s"@
    } else {
        " "@ + sign + decimal(s) + "."@ + padded(m % 1000, 3) + "s"@
    }
}

/// The annotation of an entry: the write time, and the offset where the
/// entry's own stamp falls outside the window it arrived in.
pub open spec fn annotation(ts: Option<u64>, win: WindowModel) -> Seq<char> {
    "[w "@ + win.shown + (match ts {
        Some(t) => if t < win.first_ms || t > win.last_ms {
            distance(outside(t, win))
        } else {
            Seq::empty()
        },
        None => Seq::empty(),
    }) + "] "@
}

/// The metadata record of an entry, up to its label.
pub open spec fn record_head(
    len: nat,
    ts: Option<u64>,
    win: WindowModel,
    chunk: Option<u64>,
) -> Seq<char> {
    "\u{1e}entry\u{1f}len="@ + decimal(len) + (match ts {
        Some(t) => "\u{1f}ts="@ + decimal(t as nat),
        None => Seq::empty(),
    }) + "\u{1f}wf="@ + decimal(win.first_ms as nat) + "\u{1f}wl="@ + decimal(
        win.last_ms as nat,
    ) + (match chunk {
        Some(seq) => "\u{1f}chunk="@ + decimal(seq as nat),
        None => Seq::empty(),
    })
}

/// The lines of an entry, each with its newline.
pub open spec fn entry_lines(s: Seq<u8>) -> Seq<Seq<u8>>
    decreases s.len(),
{
    let k = find_byte(s, 10);
    if s.len() == 0 {
        Seq::empty()
    } else if 0 <= k < s.len() {
        seq![s.take(k + 1)] + entry_lines(s.skip(k + 1))
    } else {
        seq![s]
    }
}

/// The first `n` lines, each behind the prefix, the first with the annotation.
pub open spec fn prefixed(
    ls: Seq<Seq<u8>>,
    prefix: Seq<u8>,
    note: Seq<u8>,
    n: int,
) -> Seq<u8>
    decreases n,
{
    if n <= 0 {
        Seq::empty()
    } else {
        prefixed(ls, prefix, note, n - 1) + prefix + (if n == 1 {
            note
        } else {
            Seq::empty()
        }) + ls[n - 1]
    }
}

/// Bytes without the newline at their end.
pub open spec fn without_newline(s: Seq<u8>) -> Seq<u8> {
    if s.len() > 0 && s.last() == 10 {
        s.drop_last()
    } else {
        s
    }
}

/// An entry as it leaves the sink.
pub open spec fn framed(
    f: FramingModel,
    entry: Seq<u8>,
    ts: Option<u64>,
    win: WindowModel,
    chunk: Option<u64>,
) -> Seq<u8> {
    let note = if f.show_write {
        encode_utf8(annotation(ts, win))
    } else {
        Seq::empty()
    };
    let prefix = match f.label {
        Some(l) => l.push(58),
        None => Seq::empty(),
    };
    if f.records {
        encode_utf8(record_head(entry.len(), ts, win, chunk)) + (match f.label {
            Some(l) => encode_utf8("\u{1f}src="@) + l,
            None => Seq::empty(),
        }) + seq![0u8] + entry + seq![0u8]
    } else if f.null_sep {
        prefix + note + without_newline(entry) + seq![0u8]
    } else {
        let ls = entry_lines(entry);
        prefixed(ls, prefix, note, ls.len() as int)
    }
}

// ----------------------------------------------------------------- grouping

/// What closing the open entry does: nothing where none is open, else the
/// entry leaves, unless its stamp lies outside the asked window or the shared
/// cap is reached.
pub open spec fn entry_closed(f: Flow) -> Flow {
    let s = f.sink;
    if s.entry.len() == 0 {
        f
    } else {
        let open = SinkModel { entry: Seq::empty(), entry_ts: None, ..s };
        let hidden = match (s.window, s.entry_ts) {
            (Some((from, to)), Some(ts)) => ts < from || ts > to,
            // No stamp on the entry: never hide what cannot be placed in time.
            _ => false,
        };
        if hidden {
            Flow { sink: SinkModel { filtered_out: s.filtered_out + 1, ..open }, ..f }
        } else if s.max is Some && f.count >= s.max->Some_0 {
            Flow { sink: SinkModel { suppressed: s.suppressed + 1, ..open }, ..f }
        } else {
            Flow {
                sink: SinkModel { emitted: s.emitted + 1, ..open },
                count: if s.max is Some {
                    f.count + 1
                } else {
                    f.count
                },
                out: f.out + framed(s.framing, s.entry, s.entry_ts, s.entry_win, s.entry_chunk),
            }
        }
    }
}

/// What one whole line does: a stamped one closes the open entry and starts
/// the next, any other continues it. An entry belongs to the chunk being
/// pushed when it starts.
pub open spec fn line_taken(f: Flow, line: Seq<u8>, stamp: Option<u64>) -> Flow {
    let win = f.sink.cur_win;
    let chunk = f.sink.cur_chunk;
    match stamp {
        Some(ts) => {
            let g = entry_closed(f);
            Flow {
                sink: SinkModel {
                    entry_ts: Some(ts),
                    entry_win: win,
                    entry_chunk: chunk,
                    entry: line,
                    stamped: g.sink.stamped + 1,
                    offset_sum: g.sink.offset_sum + outside(ts, win),
                    offset_n: g.sink.offset_n + 1,
                    ..g.sink
                },
                ..g
            }
        },
        None => {
            let over = f.sink.entry.len() + line.len() > ENTRY_CAP;
            let fresh = f.sink.entry.len() == 0 || over;
            let begun = if f.sink.entry.len() == 0 {
                Flow { sink: SinkModel { entry_win: win, entry_chunk: chunk, ..f.sink }, ..f }
            } else {
                f
            };
            let g = if over {
                entry_closed(begun)
            } else {
                begun
            };
            Flow {
                sink: SinkModel {
                    entry_win: if fresh {
                        win
                    } else {
                        g.sink.entry_win
                    },
                    entry_chunk: if fresh {
                        chunk
                    } else {
                        g.sink.entry_chunk
                    },
                    entry: g.sink.entry + line,
                    ..g.sink
                },
                ..g
            }
        },
    }
}

/// The whole lines of some bytes, each with its newline.
pub open spec fn whole_lines(s: Seq<u8>) -> Seq<Seq<u8>>
    decreases s.len(),
{
    let k = find_byte(s, 10);
    if 0 <= k < s.len() {
        seq![s.take(k + 1)] + whole_lines(s.skip(k + 1))
    } else {
        Seq::empty()
    }
}

/// What stands behind the last newline.
pub open spec fn remainder(s: Seq<u8>) -> Seq<u8>
    decreases s.len(),
{
    let k = find_byte(s, 10);
    if 0 <= k < s.len() {
        remainder(s.skip(k + 1))
    } else {
        s
    }
}

/// What the first `n` lines do.
pub open spec fn lines_taken(f: Flow, ls: Seq<Seq<u8>>, stamps: Seq<Option<u64>>, n: int) -> Flow
    decreases n,
{
    if n <= 0 {
        f
    } else {
        line_taken(lines_taken(f, ls, stamps, n - 1), ls[n - 1], stamps[n - 1])
    }
}

/// A sink to which a chunk is about to be pushed.
pub open spec fn facing(f: Flow, chunk: Option<u64>, win: WindowModel) -> Flow {
    Flow {
        sink: SinkModel { cur_chunk: chunk, cur_win: win, line: Seq::empty(), ..f.sink },
        ..f
    }
}

/// What pushing a chunk's bytes does: every line that they complete is taken,
/// and the rest is held.
pub open spec fn chunk_pushed(
    f: Flow,
    data: Seq<u8>,
    stamps: Seq<Option<u64>>,
    chunk: Option<u64>,
    win: WindowModel,
) -> Flow {
    let whole = f.sink.line + data;
    let ls = whole_lines(whole);
    let g = lines_taken(facing(f, chunk, win), ls, stamps, ls.len() as int);
    Flow { sink: SinkModel { line: remainder(whole), ..g.sink }, ..g }
}

/// What the end does: the line that never got its newline is taken, and the
/// open entry is closed.
pub open spec fn finished(f: Flow, stamp: Option<u64>) -> Flow {
    if f.sink.line.len() > 0 {
        let cut = Flow { sink: SinkModel { line: Seq::empty(), ..f.sink }, ..f };
        entry_closed(line_taken(cut, f.sink.line, stamp))
    } else {
        entry_closed(f)
    }
}

// ----------------------------------------------------------------- the sink

/// One file's entry stream. What leaves it is handed back, so several sinks
/// can interleave through a single stream.
pub struct EntrySink {
    /// Logline window to verify entries against; `None` is framing only.
    window: Option<(u64, u64)>,
    framing: Framing,
    /// Optional total-entries cap, over a count shared across sibling sinks.
    max: Option<u64>,
    display: String,
    line: Vec<u8>,
    entry: Vec<u8>,
    entry_ts: Option<u64>,
    entry_win: Window,
    cur_win: Window,
    entry_chunk: Option<u64>,
    cur_chunk: Option<u64>,
    /// Entries this sink dropped because the shared cap was already reached.
    /// Nonzero proves more existed than was emitted.
    pub suppressed: u64,
    pub emitted: u64,
    pub filtered_out: u64,
    pub stamped: u64,
    offset_sum: i128,
    offset_n: u64,
}

impl View for EntrySink {
    type V = SinkModel;

    closed spec fn view(&self) -> SinkModel {
        SinkModel {
            window: self.window,
            framing: self.framing@,
            max: self.max,
            line: self.line@,
            entry: self.entry@,
            entry_ts: self.entry_ts,
            entry_win: self.entry_win@,
            entry_chunk: self.entry_chunk,
            cur_win: self.cur_win@,
            cur_chunk: self.cur_chunk,
            emitted: self.emitted as nat,
            suppressed: self.suppressed as nat,
            filtered_out: self.filtered_out as nat,
            stamped: self.stamped as nat,
            offset_sum: self.offset_sum as int,
            offset_n: self.offset_n as nat,
        }
    }
}

/// Whether `n` more lines can be counted.
pub open spec fn has_room(s: SinkModel, n: int) -> bool {
    s.emitted + n <= u64::MAX && s.suppressed + n <= u64::MAX && s.filtered_out + n <= u64::MAX
        && s.stamped + n <= u64::MAX && s.offset_n + n <= 0x4000_0000_0000_0000 && -s.offset_n
        * 0x1_0000_0000_0000_0000 <= s.offset_sum <= s.offset_n * 0x1_0000_0000_0000_0000
}

/// Bytes without the newline at their end.
fn cut_newline(b: &[u8]) -> (r: &[u8])
    ensures
        r@ == without_newline(b@),
{
    if b.len() > 0 && b[b.len() - 1] == 10 {
        let r: &[u8] = slice_subrange(b, 0, b.len() - 1);
        assert(r@ =~= b@.drop_last());
        r
    } else {
        b
    }
}

fn padded_text(n: u64, width: usize) -> (r: String)
    ensures
        r@ == padded(n as nat, width as nat),
{
    let d = number_text(n);
    let len: usize = d.as_str().unicode_len();
    let mut r = String::new();
    let mut i: usize = len;
    while i < width
        invariant
            len <= i,
            len <= width ==> i <= width,
            len > width ==> i == len,
            r@ == Seq::new((i - len) as nat, |j: int| '0'),
        decreases width - i,
    {
        r.push('0');
        i = i + 1;
        assert(r@ =~= Seq::new((i - len) as nat, |j: int| '0'));
    }
    let out = r.concat(d.as_str());
    assert(out@ =~= padded(n as nat, width as nat));
    out
}

fn signed_of(n: u64) -> (r: i128)
    ensures
        r == signed(n),
{
    if n <= i64::MAX as u64 {
        n as i128
    } else {
        n as i128 - 0x1_0000_0000_0000_0000
    }
}

fn outside_of(ts: u64, win: &Window) -> (r: i128)
    ensures
        r == outside(ts, win@),
        -0x1_0000_0000_0000_0000 <= r <= 0x1_0000_0000_0000_0000,
{
    if ts < win.first_ms {
        signed_of(ts) - signed_of(win.first_ms)
    } else if ts > win.last_ms {
        signed_of(ts) - signed_of(win.last_ms)
    } else {
        0
    }
}

fn distance_text(d: i128) -> (r: String)
    requires
        -0x1_0000_0000_0000_0000 <= d <= 0x1_0000_0000_0000_0000,
    ensures
        r@ == distance(d as int),
{
    let sign: &str = if d < 0 {
        "-"
    } else {
        "+"
    };
    let m: u128 = if d < 0 {
        (-d) as u128
    } else {
        d as u128
    };
    let s: u64 = (m / 1000) as u64;
    let head = text(" ").concat(sign);
    if s >= 3600 {
        head.concat(number_text(s / 3600).as_str()).concat("h").concat(
            padded_text((s % 3600) / 60, 2).as_str(),
        ).concat("m")
    } else if s >= 60 {
        head.concat(number_text(s / 60).as_str()).concat("m").concat(
            padded_text(s % 60, 2).as_str(),
        ).concat("s")
    } else {
        head.concat(number_text(s).as_str()).concat(".").concat(
            padded_text((m % 1000) as u64, 3).as_str(),
        ).concat("s")
    }
}

fn annotation_text(ts: Option<u64>, win: &Window) -> (r: String)
    ensures
        r@ == annotation(ts, win@),
{
    let diff = match ts {
        Some(t) => if t < win.first_ms || t > win.last_ms {
            distance_text(outside_of(t, win))
        } else {
            let none = String::new();
            assert(none@ =~= Seq::empty());
            none
        },
        None => {
            let none = String::new();
            assert(none@ =~= Seq::empty());
            none
        },
    };
    text("[w ").concat(win.shown.as_str()).concat(diff.as_str()).concat("] ")
}

fn record_head_text(len: usize, ts: Option<u64>, win: &Window, chunk: Option<u64>) -> (r: String)
    ensures
        r@ == record_head(len as nat, ts, win@, chunk),
{
    let mut r = text("\u{1e}entry\u{1f}len=").concat(number_text(len as u64).as_str());
    let ghost a = r@;
    if let Some(t) = ts {
        r = r.concat("\u{1f}ts=").concat(number_text(t).as_str());
    }
    let ghost b = a + (match ts {
        Some(t) => "\u{1f}ts="@ + decimal(t as nat),
        None => Seq::empty(),
    });
    assert(r@ =~= b);
    r = r.concat("\u{1f}wf=").concat(number_text(win.first_ms).as_str()).concat(
        "\u{1f}wl=",
    ).concat(number_text(win.last_ms).as_str());
    // Present only for an entry that is already in a chunk: its absence is how
    // a consumer knows this one came from the live edge and cannot be resumed
    // from yet.
    if let Some(seq) = chunk {
        r = r.concat("\u{1f}chunk=").concat(number_text(seq).as_str());
    }
    assert(r@ =~= record_head(len as nat, ts, win@, chunk));
    r
}

/// The lines of an entry, each with its newline.
fn lines_of_entry(s: &[u8]) -> (r: Vec<Vec<u8>>)
    ensures
        byte_texts(r@) == entry_lines(s@),
{
    let mut out: Vec<Vec<u8>> = Vec::new();
    let mut at: usize = 0;
    assert(s@.skip(0) =~= s@);
    assert(byte_texts(out@) + entry_lines(s@.skip(0)) =~= entry_lines(s@));
    while at < s.len()
        invariant
            at <= s@.len(),
            byte_texts(out@) + entry_lines(s@.skip(at as int)) == entry_lines(s@),
        decreases s@.len() - at,
    {
        let rest: &[u8] = slice_subrange(s, at, s.len());
        assert(rest@ =~= s@.skip(at as int));
        let k: usize = position_of(rest, 10);
        let end: usize = if k < rest.len() {
            k + 1
        } else {
            k
        };
        let line: Vec<u8> = slice_to_vec(slice_subrange(rest, 0, end));
        proof {
            let done = byte_texts(out@);
            let tail = entry_lines(s@.skip(at + end));
            assert(rest@.skip(end as int) =~= s@.skip(at + end));
            assert(line@ =~= rest@.take(end as int));
            if k == rest@.len() {
                assert(rest@.take(end as int) =~= rest@);
                assert(s@.skip(at + end).len() == 0);
                assert(entry_lines(rest@) =~= seq![line@] + tail);
            }
            assert(done + (seq![line@] + tail) =~= done.push(line@) + tail);
            assert(byte_texts(out@.push(line)) =~= done.push(line@));
        }
        out.push(line);
        at = at + end;
    }
    assert(byte_texts(out@) + entry_lines(s@.skip(at as int)) =~= byte_texts(out@));
    out
}

fn put_framed(
    f: &Framing,
    entry: &[u8],
    ts: Option<u64>,
    win: &Window,
    chunk: Option<u64>,
    out: &mut Vec<u8>,
)
    ensures
        final(out)@ == old(out)@ + framed(f@, entry@, ts, win@, chunk),
{
    let ghost start = out@;
    let mut note: Vec<u8> = Vec::new();
    if f.show_write {
        let a = annotation_text(ts, win);
        note.extend_from_slice(a.as_str().as_bytes());
    }
    assert(note@ =~= (if f.show_write {
        encode_utf8(annotation(ts, win@))
    } else {
        Seq::empty()
    }));
    let mut prefix: Vec<u8> = Vec::new();
    if let Some(label) = &f.label {
        prefix.extend_from_slice(label.as_slice());
        prefix.push(58);
    }
    assert(prefix@ =~= (match f@.label {
        Some(l) => l.push(58),
        None => Seq::empty(),
    }));
    if f.records {
        let head = record_head_text(entry.len(), ts, win, chunk);
        out.extend_from_slice(head.as_str().as_bytes());
        if let Some(label) = &f.label {
            out.extend_from_slice("\u{1f}src=".as_bytes());
            out.extend_from_slice(label.as_slice());
        }
        out.push(0);
        out.extend_from_slice(entry);
        out.push(0);
        assert(out@ =~= start + framed(f@, entry@, ts, win@, chunk));
        return;
    }
    if f.null_sep {
        out.extend_from_slice(prefix.as_slice());
        out.extend_from_slice(note.as_slice());
        out.extend_from_slice(cut_newline(entry));
        out.push(0);
        assert(out@ =~= start + framed(f@, entry@, ts, win@, chunk));
        return;
    }
    let ls = lines_of_entry(entry);
    let ghost all = entry_lines(entry@);
    let mut i: usize = 0;
    assert(out@ =~= start + prefixed(all, prefix@, note@, 0));
    while i < ls.len()
        invariant
            i <= ls@.len(),
            all == byte_texts(ls@),
            out@ == start + prefixed(all, prefix@, note@, i as int),
        decreases ls@.len() - i,
    {
        out.extend_from_slice(prefix.as_slice());
        if i == 0 {
            out.extend_from_slice(note.as_slice());
        }
        out.extend_from_slice(ls[i].as_slice());
        proof {
            assert(all[i as int] == ls@[i as int]@);
            assert(out@ =~= start + prefixed(all, prefix@, note@, i + 1));
        }
        i = i + 1;
    }
}

fn copy_window(w: &Window) -> (r: Window)
    ensures
        r@ == w@,
{
    Window { first_ms: w.first_ms, last_ms: w.last_ms, shown: text(w.shown.as_str()) }
}

/// What the sink, the count and the output come to together.
pub open spec fn flow(sink: SinkModel, count: u64, out: Seq<u8>) -> Flow {
    Flow { sink, count: count as nat, out }
}

impl EntrySink {
    /// A sink that holds nothing. `max` caps the entries of all the sinks that
    /// share a count; `display` names the source.
    pub fn new(
        window: Option<(u64, u64)>,
        framing: Framing,
        max: Option<u64>,
        display: &str,
    ) -> (r: EntrySink)
        ensures
            r@ == (SinkModel {
                window,
                framing: framing@,
                max,
                line: Seq::empty(),
                entry: Seq::empty(),
                entry_ts: None,
                entry_win: WindowModel { first_ms: 0, last_ms: 0, shown: Seq::empty() },
                entry_chunk: None,
                cur_win: WindowModel { first_ms: 0, last_ms: 0, shown: Seq::empty() },
                cur_chunk: None,
                emitted: 0,
                suppressed: 0,
                filtered_out: 0,
                stamped: 0,
                offset_sum: 0,
                offset_n: 0,
            }),
            r.name() == display@,
    {
        let none = String::new();
        let again = String::new();
        assert(none@ =~= Seq::empty());
        assert(again@ =~= Seq::empty());
        let r = EntrySink {
            window,
            framing,
            max,
            display: text(display),
            line: Vec::new(),
            entry: Vec::new(),
            entry_ts: None,
            entry_win: Window { first_ms: 0, last_ms: 0, shown: none },
            cur_win: Window { first_ms: 0, last_ms: 0, shown: again },
            entry_chunk: None,
            cur_chunk: None,
            suppressed: 0,
            emitted: 0,
            filtered_out: 0,
            stamped: 0,
            offset_sum: 0,
            offset_n: 0,
        };
        assert(r.line@ =~= Seq::empty());
        assert(r.entry@ =~= Seq::empty());
        r
    }

    /// The name of the source.
    pub closed spec fn name(&self) -> Seq<char> {
        self.display@
    }

    fn close_entry(&mut self, count: &mut u64, out: &mut Vec<u8>)
        requires
            has_room(old(self)@, 1),
        ensures
            flow(final(self)@, *final(count), final(out)@) == entry_closed(
                flow(old(self)@, *old(count), old(out)@),
            ),
            final(self).name() == old(self).name(),
    {
        if self.entry.len() == 0 {
            return;
        }
        let mut entry: Vec<u8> = Vec::new();
        entry.append(&mut self.entry);
        assert(self.entry@ =~= Seq::empty());
        assert(entry@ =~= old(self).entry@);
        let ts: Option<u64> = self.entry_ts;
        self.entry_ts = None;
        let hidden: bool = match (self.window, ts) {
            (Some((from, to)), Some(t)) => t < from || t > to,
            _ => false,
        };
        if hidden {
            self.filtered_out = self.filtered_out + 1;
            return;
        }
        // Once the shared count hits the cap, drop: the read loop stops
        // feeding chunks, but a chunk in flight can still hold entries.
        if let Some(max) = self.max {
            if *count >= max {
                self.suppressed = self.suppressed + 1;
                return;
            }
            *count = *count + 1;
        }
        self.emitted = self.emitted + 1;
        put_framed(&self.framing, entry.as_slice(), ts, &self.entry_win, self.entry_chunk, out);
    }

    fn take_line(&mut self, line: Vec<u8>, stamp: Option<u64>, count: &mut u64, out: &mut Vec<u8>)
        requires
            has_room(old(self)@, 1),
        ensures
            flow(final(self)@, *final(count), final(out)@) == line_taken(
                flow(old(self)@, *old(count), old(out)@),
                line@,
                stamp,
            ),
            final(self).name() == old(self).name(),
    {
        match stamp {
            Some(ts) => {
                self.close_entry(count, out);
                self.entry_ts = Some(ts);
                self.entry_win = copy_window(&self.cur_win);
                self.entry_chunk = self.cur_chunk;
                self.entry = line;
                self.stamped = self.stamped + 1;
                // Divergence is distance outside the chunk's write window; a
                // stamp inside it has nothing to report.
                let off: i128 = outside_of(ts, &self.cur_win);
                self.offset_sum = self.offset_sum + off;
                self.offset_n = self.offset_n + 1;
            },
            None => {
                if self.entry.len() == 0 {
                    self.entry_win = copy_window(&self.cur_win);
                    self.entry_chunk = self.cur_chunk;
                }
                let size: usize = self.entry.len();
                if size > ENTRY_CAP || line.len() > ENTRY_CAP - size {
                    self.close_entry(count, out);
                    self.entry_win = copy_window(&self.cur_win);
                    self.entry_chunk = self.cur_chunk;
                }
                let ghost held = self.entry@;
                self.entry.extend_from_slice(line.as_slice());
                assert(self.entry@ =~= held + line@);
            },
        }
    }
}

proof fn lemma_room(f: Flow, line: Seq<u8>, stamp: Option<u64>, n: int)
    requires
        n >= 1,
        has_room(f.sink, n),
    ensures
        has_room(line_taken(f, line, stamp).sink, n - 1),
{
}

/// The first bytes of each line.
pub open spec fn heads_of(ls: Seq<Seq<u8>>) -> Seq<Seq<u8>> {
    Seq::new(
        ls.len(),
        |i: int|
            if ls[i].len() > HEAD_LEN {
                ls[i].take(HEAD_LEN as int)
            } else {
                ls[i]
            },
    )
}

/// The first bytes of a line.
pub open spec fn head_of(line: Seq<u8>) -> Seq<u8> {
    if line.len() > HEAD_LEN {
        line.take(HEAD_LEN as int)
    } else {
        line
    }
}

pub(crate) fn head(line: &[u8]) -> (r: Vec<u8>)
    ensures
        r@ == head_of(line@),
{
    if line.len() > HEAD_LEN {
        let cut: &[u8] = slice_subrange(line, 0, HEAD_LEN);
        assert(cut@ =~= line@.take(HEAD_LEN as int));
        slice_to_vec(cut)
    } else {
        slice_to_vec(line)
    }
}

/// The whole lines of some bytes, and what stands behind the last newline.
pub(crate) fn cut_lines(s: &[u8]) -> (r: (Vec<Vec<u8>>, Vec<u8>))
    ensures
        byte_texts(r.0@) == whole_lines(s@),
        r.1@ == remainder(s@),
{
    let mut out: Vec<Vec<u8>> = Vec::new();
    let mut at: usize = 0;
    assert(s@.skip(0) =~= s@);
    assert(byte_texts(out@) + whole_lines(s@.skip(0)) =~= whole_lines(s@));
    loop
        invariant
            at <= s@.len(),
            byte_texts(out@) + whole_lines(s@.skip(at as int)) == whole_lines(s@),
            remainder(s@.skip(at as int)) == remainder(s@),
        decreases s@.len() - at,
    {
        let rest: &[u8] = slice_subrange(s, at, s.len());
        assert(rest@ =~= s@.skip(at as int));
        let k: usize = position_of(rest, 10);
        if k == rest.len() {
            assert(byte_texts(out@) + whole_lines(rest@) =~= byte_texts(out@));
            return (out, slice_to_vec(rest));
        }
        let line: Vec<u8> = slice_to_vec(slice_subrange(rest, 0, k + 1));
        proof {
            let done = byte_texts(out@);
            let tail = whole_lines(rest@.skip(k + 1));
            assert(line@ =~= rest@.take(k + 1));
            assert(rest@.skip(k + 1) =~= s@.skip(at + k + 1));
            assert(done + (seq![line@] + tail) =~= done.push(line@) + tail);
            assert(byte_texts(out@.push(line)) =~= done.push(line@));
        }
        out.push(line);
        at = at + k + 1;
    }
}

impl EntrySink {
    /// The first bytes of each line that pushing `data` would complete: what a
    /// stamp is looked for in.
    pub fn heads(&self, data: &[u8]) -> (r: Vec<Vec<u8>>)
        ensures
            byte_texts(r@) == heads_of(whole_lines(self@.line + data@)),
    {
        let mut whole: Vec<u8> = slice_to_vec(self.line.as_slice());
        whole.extend_from_slice(data);
        assert(whole@ =~= self@.line + data@);
        let (ls, _) = cut_lines(whole.as_slice());
        let ghost all = whole_lines(whole@);
        let mut r: Vec<Vec<u8>> = Vec::new();
        let mut i: usize = 0;
        while i < ls.len()
            invariant
                i <= ls@.len(),
                all == byte_texts(ls@),
                r@.len() == i,
                forall|j: int| 0 <= j < i ==> (#[trigger] r@[j])@ == heads_of(all)[j],
            decreases ls@.len() - i,
        {
            r.push(head(ls[i].as_slice()));
            i = i + 1;
        }
        assert(byte_texts(r@) =~= heads_of(all));
        r
    }

    /// Feed one chunk's decompressed bytes with the chunk's write window.
    /// `stamps` are what the completed lines carry, in order; `chunk` is the
    /// number of the chunk, or `None` for the live edge, whose entries are in
    /// no chunk yet. `count` is shared with the sibling sinks.
    pub fn push_chunk(
        &mut self,
        data: &[u8],
        stamps: &[Option<u64>],
        chunk: Option<u64>,
        write_win: Window,
        count: &mut u64,
        out: &mut Vec<u8>,
    )
        requires
            stamps@.len() == whole_lines(old(self)@.line + data@).len(),
            has_room(old(self)@, stamps@.len() as int),
        ensures
            flow(final(self)@, *final(count), final(out)@) == chunk_pushed(
                flow(old(self)@, *old(count), old(out)@),
                data@,
                stamps@,
                chunk,
                write_win@,
            ),
            final(self).name() == old(self).name(),
    {
        let ghost f = flow(self@, *count, out@);
        let mut whole: Vec<u8> = slice_to_vec(self.line.as_slice());
        whole.extend_from_slice(data);
        assert(whole@ =~= self@.line + data@);
        let (ls, rest) = cut_lines(whole.as_slice());
        let ghost all = whole_lines(whole@);
        self.line = Vec::new();
        self.cur_chunk = chunk;
        self.cur_win = write_win;
        let ghost g = facing(f, chunk, write_win@);
        assert(self.line@ =~= Seq::empty());
        assert(flow(self@, *count, out@) == g);
        let mut i: usize = 0;
        while i < ls.len()
            invariant
                i <= ls@.len(),
                all == byte_texts(ls@),
                ls@.len() == stamps@.len(),
                has_room(self@, stamps@.len() - i),
                self.name() == old(self).name(),
                flow(self@, *count, out@) == lines_taken(g, all, stamps@, i as int),
            decreases ls@.len() - i,
        {
            let line: Vec<u8> = slice_to_vec(ls[i].as_slice());
            proof {
                assert(all[i as int] == line@);
                lemma_room(flow(self@, *count, out@), line@, stamps@[i as int], stamps@.len() - i);
            }
            self.take_line(line, stamps[i], count, out);
            i = i + 1;
        }
        self.line = rest;
    }

    /// Close the entry held open waiting for the next stamped line: the
    /// live-stream escape from "the newest entry is never the one you see".
    /// The partial line stays buffered; it is genuinely incomplete.
    pub fn flush_pending(&mut self, count: &mut u64, out: &mut Vec<u8>)
        requires
            has_room(old(self)@, 1),
        ensures
            flow(final(self)@, *final(count), final(out)@) == entry_closed(
                flow(old(self)@, *old(count), old(out)@),
            ),
            final(self).name() == old(self).name(),
    {
        self.close_entry(count, out);
    }

    /// The first bytes of the line that never got its newline.
    pub fn last_head(&self) -> (r: Option<Vec<u8>>)
        ensures
            match r {
                Some(h) => self@.line.len() > 0 && h@ == head_of(self@.line),
                None => self@.line.len() == 0,
            },
    {
        if self.line.len() == 0 {
            None
        } else {
            Some(head(self.line.as_slice()))
        }
    }

    /// Flush pending state; call once after the last push. `stamp` is what the
    /// line that never got its newline carries.
    pub fn finish(&mut self, stamp: Option<u64>, count: &mut u64, out: &mut Vec<u8>)
        requires
            has_room(old(self)@, 2),
        ensures
            flow(final(self)@, *final(count), final(out)@) == finished(
                flow(old(self)@, *old(count), old(out)@),
                stamp,
            ),
            final(self).name() == old(self).name(),
    {
        if self.line.len() > 0 {
            let mut line: Vec<u8> = Vec::new();
            line.append(&mut self.line);
            assert(self.line@ =~= Seq::empty());
            assert(line@ =~= old(self).line@);
            proof {
                lemma_room(flow(self@, *count, out@), line@, stamp, 2);
            }
            self.take_line(line, stamp, count, out);
        }
        self.close_entry(count, out);
    }

    /// The timezone tripwire: on one host the clocks cancel, so a persistent
    /// offset near a whole number of hours is a parsing or timezone
    /// misconfiguration, not clock skew. Nothing where there is none.
    pub fn tripwire(&self) -> (r: Option<String>)
        requires
            has_room(self@, 0),
        ensures
            match r {
                Some(s) => tripped(self@) is Some && s@ == "timberfs: "@ + self.name()
                    + ": line timestamps run ~"@ + decimal(
                    hours_off(tripped(self@)->Some_0),
                ) + "h "@ + (if tripped(self@)->Some_0 > 0 {
                    "ahead of"@
                } else {
                    "behind"@
                })
                    + " the write clock — timezone mismatch? (declare timestamp_utc with `timberfs set`)"@,
                None => tripped(self@) is None,
            },
    {
        if self.offset_n < 20 {
            return None;
        }
        let n: u128 = self.offset_n as u128;
        let ahead: bool = self.offset_sum > 0;
        let sum: u128 = if self.offset_sum >= 0 {
            self.offset_sum as u128
        } else {
            (-self.offset_sum) as u128
        };
        let avg: u128 = sum / n;
        proof {
            assert(sum <= n * 0x1_0000_0000_0000_0000);
            assert(avg <= 0x1_0000_0000_0000_0000) by (nonlinear_arith)
                requires
                    avg == sum / n,
                    sum <= n * 0x1_0000_0000_0000_0000,
                    n > 0,
            ;
        }
        let hours: u128 = (avg + 1_800_000) / 3_600_000;
        let near: u128 = hours * 3_600_000;
        let off: u128 = if avg > near {
            avg - near
        } else {
            near - avg
        };
        if hours == 0 || off >= 300_000 {
            return None;
        }
        Some(
            text("timberfs: ").concat(self.display.as_str()).concat(
                ": line timestamps run ~",
            ).concat(number_text(hours as u64).as_str()).concat("h ").concat(
                if ahead {
                    "ahead of"
                } else {
                    "behind"
                },
            ).concat(
                " the write clock — timezone mismatch? (declare timestamp_utc with `timberfs set`)",
            ),
        )
    }
}

/// A distance as a whole number.
pub open spec fn magnitude(d: int) -> nat {
    if d < 0 {
        (-d) as nat
    } else {
        d as nat
    }
}

/// The nearest whole number of hours to a distance, a half rounding up.
pub open spec fn hours_off(avg: int) -> nat {
    (magnitude(avg) + 1_800_000) / 3_600_000
}

/// The mean distance of the stamps from their windows, towards zero, where it
/// is within five minutes of a whole number of hours that is not none, over
/// twenty stamps at least.
pub open spec fn tripped(s: SinkModel) -> Option<int> {
    let m = (magnitude(s.offset_sum) / s.offset_n) as int;
    let avg = if s.offset_sum < 0 {
        -m
    } else {
        m
    };
    let off = m - hours_off(avg) * 3_600_000;
    if s.offset_n >= 20 && hours_off(avg) != 0 && -300_000 < off < 300_000 {
        Some(avg)
    } else {
        None
    }
}

// ------------------------------------------------------------------ probing

/// The lines of a chunk that are not empty, up to the thousandth.
pub open spec fn probed(parts: Seq<Seq<u8>>, n: int) -> Seq<Seq<u8>>
    decreases n,
{
    if n <= 0 {
        Seq::empty()
    } else {
        let done = probed(parts, n - 1);
        if parts[n - 1].len() == 0 || done.len() >= 1000 {
            done
        } else {
            done.push(head_of(parts[n - 1]))
        }
    }
}

/// The first bytes of the lines that a probe asks about: the first thousand
/// that are not empty.
pub fn probe_heads(data: &[u8]) -> (r: Vec<Vec<u8>>)
    ensures
        ({
            let parts = crate::wire::split_bytes(data@, 10);
            byte_texts(r@) == probed(parts, parts.len() as int)
        }),
{
    let parts = crate::wire::split(data, 10);
    let ghost all = byte_texts(parts@);
    let mut r: Vec<Vec<u8>> = Vec::new();
    let mut i: usize = 0;
    assert(byte_texts(r@) =~= probed(all, 0));
    while i < parts.len()
        invariant
            i <= parts@.len(),
            all == byte_texts(parts@),
            byte_texts(r@) == probed(all, i as int),
        decreases parts@.len() - i,
    {
        assert(all[i as int] == parts@[i as int]@);
        assert(byte_texts(r@).len() == r@.len());
        if parts[i].len() > 0 && r.len() < 1000 {
            let h = head(parts[i].as_slice());
            assert(byte_texts(r@.push(h)) =~= byte_texts(r@).push(h@));
            r.push(h);
        }
        i = i + 1;
    }
    r
}

/// Do any of a chunk's first lines carry a timestamp, given what each that was
/// asked about carries? Decides whether the read path can filter or must fall
/// back to the raw write-time window.
pub fn probe_stamps(stamps: &[Option<u64>]) -> (r: bool)
    ensures
        r == exists|i: int| 0 <= i < stamps@.len() && (#[trigger] stamps@[i]) is Some,
{
    let mut i: usize = 0;
    while i < stamps.len()
        invariant
            i <= stamps@.len(),
            forall|j: int| 0 <= j < i ==> (#[trigger] stamps@[j]) is None,
        decreases stamps@.len() - i,
    {
        if stamps[i].is_some() {
            return true;
        }
        i = i + 1;
    }
    false
}

// --------------------------------------------------------------------- laws

/// Every entry that is closed is accounted for, once: it was emitted, or it
/// lay outside the asked window, or the cap suppressed it.
pub proof fn every_closed_entry_is_counted_once(f: Flow)
    requires
        f.sink.entry.len() > 0,
    ensures
        ({
            let g = entry_closed(f).sink;
            g.emitted + g.filtered_out + g.suppressed == f.sink.emitted + f.sink.filtered_out
                + f.sink.suppressed + 1
        }),
        entry_closed(f).sink.entry.len() == 0,
{
}

/// An entry with a stamp leaves a sink that was asked for a window only where
/// its stamp lies in the window, both ends included: outside it, and only
/// there, it is counted as filtered out and nothing leaves.
pub proof fn only_what_lies_in_the_window_leaves(f: Flow, from: u64, to: u64, ts: u64)
    requires
        f.sink.window == Some((from, to)),
        f.sink.entry_ts == Some(ts),
        f.sink.entry.len() > 0,
    ensures
        ({
            let g = entry_closed(f);
            let inside = from <= ts <= to;
            &&& !inside <==> g.sink.filtered_out == f.sink.filtered_out + 1
            &&& !inside ==> g.out == f.out && g.sink.emitted == f.sink.emitted
                && g.sink.suppressed == f.sink.suppressed && g.count == f.count
            &&& inside && (f.sink.max is None || f.count < f.sink.max->Some_0) ==> g.sink.emitted
                == f.sink.emitted + 1 && g.out == f.out + framed(
                f.sink.framing,
                f.sink.entry,
                Some(ts),
                f.sink.entry_win,
                f.sink.entry_chunk,
            )
            &&& g.sink.emitted > f.sink.emitted ==> inside
        }),
{
}

/// A sink that was asked for no window filters nothing out, whatever stamps its
/// entries carry.
pub proof fn without_a_window_nothing_is_filtered(f: Flow)
    requires
        f.sink.window is None,
    ensures
        entry_closed(f).sink.filtered_out == f.sink.filtered_out,
        f.sink.entry.len() > 0 && f.sink.max is None ==> entry_closed(f).sink.emitted
            == f.sink.emitted + 1,
{
}

/// An entry without a stamp is never hidden: what cannot be placed in time
/// leaves the sink, unless the cap is reached.
pub proof fn an_unstamped_entry_is_never_hidden(f: Flow)
    requires
        f.sink.entry_ts is None,
    ensures
        entry_closed(f).sink.filtered_out == f.sink.filtered_out,
{
}

/// The cap holds over every sink that shares the count: a close that starts
/// within it ends within it, and beyond it nothing leaves.
pub proof fn the_cap_is_never_exceeded(f: Flow)
    requires
        f.sink.max is Some,
    ensures
        f.count <= f.sink.max->Some_0 ==> entry_closed(f).count <= f.sink.max->Some_0,
        f.count >= f.sink.max->Some_0 ==> entry_closed(f).out == f.out,
{
}

/// Lines are cut, not lost: the whole lines and the remainder are the bytes.
pub proof fn cutting_lines_loses_nothing(s: Seq<u8>)
    ensures
        concatenated(whole_lines(s)) + remainder(s) == s,
    decreases s.len(),
{
    let k = find_byte(s, 10);
    crate::wire::lemma_find_byte(s, 10);
    if k < s.len() {
        let t = s.skip(k + 1);
        cutting_lines_loses_nothing(t);
        let first = s.take(k + 1);
        let ls = whole_lines(s);
        assert(ls =~= seq![first] + whole_lines(t));
        lemma_concatenated_first(first, whole_lines(t));
        assert(first + concatenated(whole_lines(t)) + remainder(t) =~= first + (concatenated(
            whole_lines(t),
        ) + remainder(t)));
        assert(first + t =~= s);
    } else {
        assert(concatenated(whole_lines(s)) + remainder(s) =~= s);
    }
}

/// Runs of bytes, end to end.
pub open spec fn concatenated(v: Seq<Seq<u8>>) -> Seq<u8>
    decreases v.len(),
{
    if v.len() == 0 {
        Seq::empty()
    } else {
        concatenated(v.drop_last()) + v.last()
    }
}

pub proof fn lemma_concatenated_first(x: Seq<u8>, v: Seq<Seq<u8>>)
    ensures
        concatenated(seq![x] + v) == x + concatenated(v),
    decreases v.len(),
{
    let all = seq![x] + v;
    if v.len() == 0 {
        assert(all =~= seq![x]);
        assert(all.drop_last() =~= Seq::empty());
        assert(concatenated(seq![x]) =~= concatenated(Seq::empty()) + x);
        assert(x + concatenated(v) =~= x);
        assert(concatenated(Seq::empty()) + x =~= x);
    } else {
        lemma_concatenated_first(x, v.drop_last());
        assert(all.drop_last() =~= seq![x] + v.drop_last());
        assert(all.last() == v.last());
        assert(x + concatenated(v.drop_last()) + v.last() =~= x + (concatenated(v.drop_last())
            + v.last()));
    }
}

/// A line joins the entry that it belongs to, whole and behind what is there:
/// what a line leaves in the sink is the line, behind the open entry where the
/// line continues it.
pub proof fn a_line_is_kept_whole(f: Flow, line: Seq<u8>, stamp: Option<u64>)
    ensures
        stamp is Some ==> line_taken(f, line, stamp).sink.entry == line,
        stamp is None && f.sink.entry.len() + line.len() <= ENTRY_CAP ==> line_taken(
            f,
            line,
            stamp,
        ).sink.entry == f.sink.entry + line && line_taken(f, line, stamp).out == f.out,
        stamp is None && f.sink.entry.len() + line.len() > ENTRY_CAP ==> line_taken(
            f,
            line,
            stamp,
        ).sink.entry == line,
{
    let g = line_taken(f, line, stamp);
    if stamp is None && f.sink.entry.len() + line.len() > ENTRY_CAP {
        assert(g.sink.entry =~= line);
    }
}

} // verus!
