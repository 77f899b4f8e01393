//! Following a log file that someone else writes.
//!
//! Three invariants say how. The store is the checkpoint: a start is brought
//! level with what the store holds, line by line over the window that overlaps,
//! so that a restart can neither lose nor duplicate. A file is never abandoned
//! before its end: when the path is replaced, the file that is still held is
//! drained first. And every decision about a position is announced.

use crate::append::{check_policy, duration_ms, policy_outcome, size_bytes, MeasureError};
use crate::bark::opt_str;
use crate::entry::{
    concatenated, cut_lines, cutting_lines_loses_nothing, head, head_of, remainder, whole_lines,
};
use crate::paths::{join, joined_path};
use crate::registration::{nothing_said, say};
use crate::text::{copy_texts, decimal, number_text, text, texts};
use crate::tokens::byte_texts;
use crate::wire::{find_byte, lemma_find_byte, lemma_find_byte_is, lossy, lossy_text};
use std::collections::HashMap;
use vstd::prelude::*;
use vstd::string::StringExecFns;

verus! {

broadcast use vstd::std_specs::hash::group_hash_axioms;

/// How a file is followed.
#[derive(Clone, Debug, PartialEq, Eq)]
pub struct FollowOpts {
    /// How often to look for new data, and for a replaced file.
    pub poll_ms: u64,
    /// Where rotation moves the file, for data written while this was not
    /// running. Empty means the derived defaults.
    pub rotated: Vec<String>,
    pub exit_on_upgrade: bool,
    /// How long to wait for the log's writer to leave.
    pub wait_for_writer_ms: u64,
}

/// Where a rotation is likely to have put the previous file: what was given,
/// or else, of the two names that rotation uses by default, those that are
/// there, the older first, so that a start which missed two rotations stitches
/// them in order.
pub fn rotated_candidates(
    dir: &str,
    name: &str,
    given: &Vec<String>,
    first_there: bool,
    zeroth_there: bool,
) -> (r: Vec<String>)
    ensures
        texts(r@) == (if given@.len() > 0 {
            texts(given@)
        } else {
            (if first_there {
                seq![join(dir@, name@ + ".1"@)]
            } else {
                Seq::empty()
            }) + (if zeroth_there {
                seq![join(dir@, name@ + ".0"@)]
            } else {
                Seq::empty()
            })
        }),
        given@.len() == 0 ==> r@.len() == (if first_there { 1int } else { 0 })
            + (if zeroth_there { 1int } else { 0 }),
        given@.len() > 0 ==> texts(r@) == texts(given@),
{
    if given.len() > 0 {
        return copy_texts(given);
    }
    let mut out = nothing_said();
    if first_there {
        say(&mut out, joined_path(dir, text(name).concat(".1").as_str()));
    }
    if zeroth_there {
        say(&mut out, joined_path(dir, text(name).concat(".0").as_str()));
    }
    proof {
        assert(texts(out@) =~= (if first_there {
            seq![join(dir@, name@ + ".1"@)]
        } else {
            Seq::empty()
        }) + (if zeroth_there {
            seq![join(dir@, name@ + ".0"@)]
        } else {
            Seq::empty()
        }));
    }
    out
}

// ------------------------------------------------------------------ reading

/// A file that is being read: how much of it was consumed, and the tail that
/// has no newline yet, because its writer is in the middle of a line.
#[derive(Clone, Debug, PartialEq, Eq)]
pub struct Reading {
    pub offset: u64,
    pub pending: Vec<u8>,
}

impl Reading {
    /// Whether the tail was read from the file.
    pub open spec fn wf(&self) -> bool {
        self.pending@.len() <= self.offset
    }

    /// Reading from an offset.
    pub fn at(from: u64) -> (r: Reading)
        ensures
            r.offset == from,
            r.pending@ == Seq::<u8>::empty(),
            r.wf(),
    {
        Reading { offset: from, pending: Vec::new() }
    }

    /// Takes what was read and gives every complete line, each with its
    /// newline; a trailing fragment is kept for the next read.
    pub fn take(&mut self, bytes: &[u8]) -> (r: Vec<Vec<u8>>)
        requires
            old(self).wf(),
            old(self).offset + bytes@.len() <= u64::MAX,
        ensures
            final(self).wf(),
            byte_texts(r@) == whole_lines(old(self).pending@ + bytes@),
            final(self).pending@ == remainder(old(self).pending@ + bytes@),
            final(self).offset == old(self).offset + bytes@.len(),
    {
        let ghost was = self.pending@;
        let mut all: Vec<u8> = Vec::new();
        core::mem::swap(&mut all, &mut self.pending);
        all.extend_from_slice(bytes);
        proof {
            assert(all@ =~= was + bytes@);
            lemma_remainder_len(all@);
        }
        let (lines, rest) = cut_lines(all.as_slice());
        self.pending = rest;
        self.offset = self.offset + bytes.len() as u64;
        lines
    }

    /// What was consumed of the file without the tail: where a later read has
    /// to start so that the line comes out whole.
    pub fn settled(&self) -> (r: u64)
        requires
            self.wf(),
        ensures
            r == self.offset - self.pending@.len(),
    {
        self.offset - self.pending.len() as u64
    }

    /// The last line of a file that will never grow again, which is complete
    /// whether or not it ends in a newline; nothing where there is none.
    pub fn finish(&mut self) -> (r: Option<Vec<u8>>)
        requires
            old(self).wf(),
        ensures
            final(self).wf(),
            final(self).pending@ == Seq::<u8>::empty(),
            final(self).offset == old(self).offset,
            match r {
                Some(line) => old(self).pending@.len() > 0 && line@ == old(self).pending@,
                None => old(self).pending@.len() == 0,
            },
    {
        if self.pending.len() == 0 {
            proof {
                assert(self.pending@ =~= Seq::<u8>::empty());
            }
            return None;
        }
        let mut line: Vec<u8> = Vec::new();
        core::mem::swap(&mut line, &mut self.pending);
        Some(line)
    }
}

/// The line that a tail without a newline comes to at the end of a file: none
/// where there is no tail, or where the file is live and its writer is in the
/// middle of the line.
pub open spec fn unended_line(pending: Seq<u8>, live: bool) -> Seq<Seq<u8>> {
    if live || pending.len() == 0 {
        Seq::empty()
    } else {
        seq![pending]
    }
}

/// The lines of a file, as far as they are complete.
pub open spec fn file_lines(content: Seq<u8>, live: bool) -> Seq<Seq<u8>> {
    whole_lines(content) + unended_line(remainder(content), live)
}

impl Reading {
    /// What is left at the end of the file: the line that its tail is, where
    /// the file will not grow again.
    pub fn rest(&mut self, live: bool) -> (r: Vec<Vec<u8>>)
        requires
            old(self).wf(),
        ensures
            final(self).wf(),
            byte_texts(r@) == unended_line(old(self).pending@, live),
            final(self).pending@ == (if live {
                old(self).pending@
            } else {
                Seq::empty()
            }),
            final(self).offset == old(self).offset,
    {
        let mut r: Vec<Vec<u8>> = Vec::new();
        if !live {
            if let Some(line) = self.finish() {
                r.push(line);
            }
        }
        proof {
            assert(byte_texts(r@) =~= unended_line(old(self).pending@, live));
        }
        r
    }
}

/// What is said where the last line of a replaced file has no newline.
pub fn fragment_note(line: &Vec<u8>) -> (r: String)
    ensures
        r@ == fragment_said(line@.len()),
{
    let n: usize = line.len();
    text("timberfs: committing a final ").concat(number_text(n as u64).as_str()).concat(
        " byte(s) that never got their newline (the file was replaced mid-line)",
    )
}

/// The beginning of a line as text: what a time is looked for in.
pub fn line_head(line: &[u8]) -> (r: String)
    ensures
        r@ == lossy(head_of(line@)),
{
    let start = head(line);
    lossy_text(start.as_slice())
}

proof fn lemma_remainder_len(s: Seq<u8>)
    ensures
        remainder(s).len() <= s.len(),
    decreases s.len(),
{
    let k = find_byte(s, 10);
    if 0 <= k < s.len() {
        lemma_remainder_len(s.skip(k + 1));
    }
}

/// How a file is cut into reads changes nothing: reading it in two pieces
/// gives the lines that reading it at once gives, and leaves the same tail.
pub proof fn reading_in_pieces_changes_nothing(s: Seq<u8>, t: Seq<u8>)
    ensures
        whole_lines(s + t) == whole_lines(s) + whole_lines(remainder(s) + t),
        remainder(s + t) == remainder(remainder(s) + t),
    decreases s.len(),
{
    let k = find_byte(s, 10);
    lemma_find_byte(s, 10);
    if k < s.len() {
        let rest = s.skip(k + 1);
        reading_in_pieces_changes_nothing(rest, t);
        assert forall|i: int| 0 <= i < k implies (#[trigger] (s + t)[i]) != 10 by {
            assert((s + t)[i] == s[i]);
        }
        lemma_find_byte_is(s + t, 10, k);
        assert((s + t).skip(k + 1) =~= rest + t);
        assert((s + t).take(k + 1) =~= s.take(k + 1));
        assert(whole_lines(s + t) =~= whole_lines(s) + whole_lines(remainder(s) + t));
    } else {
        assert(whole_lines(s) + whole_lines(s + t) =~= whole_lines(s + t));
    }
}

/// Nothing that is read is lost or said twice: the lines that are handed out
/// and the tail that is kept are the tail that was kept and what was read.
pub proof fn what_is_read_is_handed_out_or_kept(pending: Seq<u8>, bytes: Seq<u8>)
    ensures
        concatenated(whole_lines(pending + bytes)) + remainder(pending + bytes) == pending + bytes,
{
    cutting_lines_loses_nothing(pending + bytes);
}

// ----------------------------------------------------------------- catch up

/// How a file compares with what the store holds.
#[derive(Clone, Debug, PartialEq, Eq)]
pub enum Overlap {
    /// There is nothing in the file.
    Nothing,
    /// The file starts before anything the store holds; what is said. A
    /// store's write axis only moves forward.
    Skip(String),
    /// The file starts inside what the store holds, whose last write is
    /// `until`; what is said.
    Within { until: u64, note: String },
    /// Everything in the file is new.
    Beyond,
}

/// How times are shown.
#[derive(Clone, Debug, PartialEq, Eq)]
pub struct ShownTimes {
    /// The file's first.
    pub start: String,
    /// The store's first.
    pub first: String,
    /// The store's last.
    pub last: String,
}

/// What is said of a file that is skipped.
pub open spec fn skipping_said(path: Seq<char>, name: Seq<char>, start: Seq<char>, first: Seq<
    char,
>) -> Seq<char> {
    "timberfs: skipping "@ + path + " — it starts "@ + start + " , before the oldest data in "@
        + name + " ("@ + first
        + "); a store's write axis only moves forward, so import that history into a store of its own if you need it"@
}

/// What is said of a file that overlaps.
pub open spec fn overlap_said(path: Seq<char>, name: Seq<char>, last: Seq<char>) -> Seq<char> {
    "timberfs: "@ + path + " overlaps what "@ + name + " already holds (through "@ + last
        + ") — re-syncing against the store, line by line"@
}

/// How a file compares with a store, by the file's length and first time, and
/// the store's first and last write.
pub fn overlap(
    path: &str,
    name: &str,
    size: u64,
    start: u64,
    held: Option<(u64, u64)>,
    shown: &ShownTimes,
) -> (r: Overlap)
    ensures
        if size == 0 {
            r is Nothing
        } else {
            match held {
                None => r is Beyond,
                Some((first, last)) => if start < first {
                    r matches Overlap::Skip(s) && s@ == skipping_said(
                        path@,
                        name@,
                        shown.start@,
                        shown.first@,
                    )
                } else if start <= last {
                    r matches Overlap::Within { until, note } && until == last && note@
                        == overlap_said(path@, name@, shown.last@)
                } else {
                    r is Beyond
                },
            }
        },
        r is Nothing <==> size == 0,
        r is Skip <==> size > 0 && held is Some && start < held->Some_0.0,
        r is Within <==> size > 0 && held is Some && held->Some_0.0 <= start <= held->Some_0.1,
        r is Within ==> r->until == held->Some_0.1,
{
    if size == 0 {
        return Overlap::Nothing;
    }
    match held {
        None => Overlap::Beyond,
        Some((first, last)) => {
            if start < first {
                Overlap::Skip(
                    text("timberfs: skipping ").concat(path).concat(" — it starts ").concat(
                        shown.start.as_str(),
                    ).concat(" , before the oldest data in ").concat(name).concat(" (").concat(
                        shown.first.as_str(),
                    ).concat(
                        "); a store's write axis only moves forward, so import that history into a store of its own if you need it",
                    ),
                )
            } else if start <= last {
                Overlap::Within {
                    until: last,
                    note: text("timberfs: ").concat(path).concat(" overlaps what ").concat(
                        name,
                    ).concat(" already holds (through ").concat(shown.last.as_str()).concat(
                        ") — re-syncing against the store, line by line",
                    ),
                }
            } else {
                Overlap::Beyond
            }
        },
    }
}

/// Bringing a store level with a file: how many of each line the store holds
/// over the window that overlaps and the file was not found to have yet, until
/// when the window goes, whether it is behind us, and what came of the lines.
pub struct ResyncModel {
    pub counts: Map<u64, u64>,
    pub until: u64,
    pub past: bool,
    pub skipped: u64,
    pub added: u64,
}

/// Bringing a store level with a file, line by line.
pub struct Resync {
    counts: HashMap<u64, u64>,
    until: u64,
    past: bool,
    skipped: u64,
    added: u64,
}

impl View for Resync {
    type V = ResyncModel;

    closed spec fn view(&self) -> ResyncModel {
        ResyncModel {
            counts: self.counts@,
            until: self.until,
            past: self.past,
            skipped: self.skipped,
            added: self.added,
        }
    }
}

/// How many of a line the store still holds.
pub open spec fn left(counts: Map<u64, u64>, line: u64) -> u64 {
    if counts.contains_key(line) {
        counts[line]
    } else {
        0
    }
}

/// Whether a time is past the window.
pub open spec fn later(at: Option<u64>, until: u64) -> bool {
    at is Some && at->Some_0 > until
}

/// What a line comes to: whether it is new, and how things stand after it. A
/// line past the window ends it: everything from there on is new.
pub open spec fn resynced(m: ResyncModel, line: u64, at: Option<u64>) -> (ResyncModel, bool) {
    if !m.past && !later(at, m.until) && left(m.counts, line) > 0 {
        (
            ResyncModel {
                counts: m.counts.insert(line, (m.counts[line] - 1) as u64),
                skipped: (m.skipped + 1) as u64,
                ..m
            },
            false,
        )
    } else {
        (
            ResyncModel {
                past: m.past || later(at, m.until),
                added: (m.added + 1) as u64,
                ..m
            },
            true,
        )
    }
}

/// The beginning, where every line of the file is new.
pub open spec fn past_window() -> ResyncModel {
    ResyncModel { counts: Map::empty(), until: 0, past: true, skipped: 0, added: 0 }
}

/// The beginning, where the store holds so many of each line over a window.
pub open spec fn within_window(counts: Map<u64, u64>, until: u64) -> ResyncModel {
    ResyncModel { counts, until, past: false, skipped: 0, added: 0 }
}

impl Resync {
    /// Every line of the file is new.
    pub fn beyond() -> (r: Resync)
        ensures
            r@ == past_window(),
    {
        let r = Resync { counts: HashMap::new(), until: 0, past: true, skipped: 0, added: 0 };
        proof {
            assert(r@.counts =~= Map::<u64, u64>::empty());
        }
        r
    }

    /// The store holds so many of each line over a window that goes until a
    /// time.
    pub fn within(counts: HashMap<u64, u64>, until: u64) -> (r: Resync)
        ensures
            r@ == within_window(counts@, until),
    {
        Resync { counts, until, past: false, skipped: 0, added: 0 }
    }

    /// How a file is brought level, by how it compares with the store: nothing
    /// where none of it is read. `counts` are the lines that the store holds
    /// over the window, where there is one.
    pub fn begin(overlap: &Overlap, counts: HashMap<u64, u64>) -> (r: Option<Resync>)
        ensures
            match *overlap {
                Overlap::Nothing => r is None,
                Overlap::Skip(_) => r is None,
                Overlap::Within { until, .. } => r is Some && r->Some_0@ == within_window(
                    counts@,
                    until,
                ),
                Overlap::Beyond => r is Some && r->Some_0@ == past_window(),
            },
    {
        match overlap {
            Overlap::Nothing => None,
            Overlap::Skip(_) => None,
            Overlap::Within { until, .. } => Some(Resync::within(counts, *until)),
            Overlap::Beyond => Some(Resync::beyond()),
        }
    }

    /// Whether a line is new. `at` is the line's time, or, where it has none,
    /// that of the entry it belongs to.
    pub fn line(&mut self, line: u64, at: Option<u64>) -> (new: bool)
        requires
            old(self)@.skipped < u64::MAX,
            old(self)@.added < u64::MAX,
        ensures
            (final(self)@, new) == resynced(old(self)@, line, at),
    {
        let ghost was = self@;
        let late = match at {
            Some(t) => t > self.until,
            None => false,
        };
        if !self.past && !late {
            let held: u64 = match self.counts.get(&line) {
                Some(n) => *n,
                None => 0,
            };
            if held > 0 {
                self.counts.insert(line, held - 1);
                self.skipped = self.skipped + 1;
                return false;
            }
        }
        if late {
            self.past = true;
        }
        self.added = self.added + 1;
        true
    }

    /// What is said once the file is read, where it held anything.
    pub fn summary(&self, path: &str, name: &str) -> (r: Option<String>)
        ensures
            match r {
                Some(s) => (self@.skipped > 0 || self@.added > 0) && s@ == "timberfs: "@ + path@
                    + ": "@ + decimal(self@.added as nat) + " line(s) new, "@ + decimal(
                    self@.skipped as nat,
                ) + " already in "@ + name@,
                None => self@.skipped == 0 && self@.added == 0,
            },
    {
        if self.skipped > 0 || self.added > 0 {
            Some(
                text("timberfs: ").concat(path).concat(": ").concat(
                    number_text(self.added).as_str(),
                ).concat(" line(s) new, ").concat(number_text(self.skipped).as_str()).concat(
                    " already in ",
                ).concat(name),
            )
        } else {
            None
        }
    }
}

/// A line and when it is.
pub struct TimedLine {
    pub line: u64,
    pub at: Option<u64>,
}

/// How things stand after a run of lines, and which of them were new.
pub open spec fn resynced_all(m: ResyncModel, lines: Seq<TimedLine>) -> (ResyncModel, Seq<u64>)
    decreases lines.len(),
{
    if lines.len() == 0 {
        (m, Seq::empty())
    } else {
        let (before, new) = resynced_all(m, lines.drop_last());
        let (after, is_new) = resynced(before, lines.last().line, lines.last().at);
        (
            after,
            if is_new {
                new.push(lines.last().line)
            } else {
                new
            },
        )
    }
}

/// Which of a run of lines are new.
pub open spec fn decided(m: ResyncModel, known: Seq<TimedLine>) -> Seq<bool>
    decreases known.len(),
{
    if known.len() == 0 {
        Seq::empty()
    } else {
        let (before, _) = resynced_all(m, known.drop_last());
        decided(m, known.drop_last()).push(resynced(before, known.last().line, known.last().at).1)
    }
}

/// The lines that are marked.
pub open spec fn marked(lines: Seq<Seq<u8>>, marks: Seq<bool>) -> Seq<Seq<u8>>
    decreases lines.len(),
{
    if lines.len() == 0 {
        Seq::empty()
    } else {
        let front = marked(lines.drop_last(), marks);
        if marks[lines.len() - 1] {
            front.push(lines.last())
        } else {
            front
        }
    }
}

/// The lines that are new, of those given with what they are known by.
pub open spec fn new_among(m: ResyncModel, lines: Seq<Seq<u8>>, known: Seq<TimedLine>) -> Seq<
    Seq<u8>,
> {
    marked(lines, decided(m, known))
}

/// What a line is known by: its hash, and its time, or where it has none, that
/// of the entry it belongs to.
#[derive(Clone, Copy, Debug, PartialEq, Eq, Structural)]
pub struct LineKey {
    pub hash: u64,
    pub at: Option<u64>,
}

/// What a list of keys is.
pub open spec fn timed_lines(v: Seq<LineKey>) -> Seq<TimedLine> {
    Seq::new(v.len(), |i: int| TimedLine { line: v[i].hash, at: v[i].at })
}

proof fn lemma_resynced_counts(m: ResyncModel, known: Seq<TimedLine>)
    ensures
        resynced_all(m, known).0.skipped <= m.skipped + known.len(),
        resynced_all(m, known).0.added <= m.added + known.len(),
    decreases known.len(),
{
    if known.len() > 0 {
        lemma_resynced_counts(m, known.drop_last());
    }
}

impl Resync {
    /// Which of a run of lines the store does not hold, in order: those are
    /// new.
    pub fn decide(&mut self, known: &Vec<LineKey>) -> (r: Vec<bool>)
        requires
            old(self)@.skipped + known@.len() <= u64::MAX,
            old(self)@.added + known@.len() <= u64::MAX,
        ensures
            final(self)@ == resynced_all(old(self)@, timed_lines(known@)).0,
            r@ == decided(old(self)@, timed_lines(known@)),
    {
        let ghost keys = timed_lines(known@);
        let ghost was = self@;
        let mut out: Vec<bool> = Vec::new();
        let mut i: usize = 0;
        proof {
            assert(keys.take(0) =~= Seq::empty());
            assert(out@ =~= Seq::<bool>::empty());
        }
        while i < known.len()
            invariant
                i <= known@.len(),
                keys == timed_lines(known@),
                was.skipped + known@.len() <= u64::MAX,
                was.added + known@.len() <= u64::MAX,
                self@ == resynced_all(was, keys.take(i as int)).0,
                out@ == decided(was, keys.take(i as int)),
            decreases known@.len() - i,
        {
            let key: LineKey = known[i];
            proof {
                assert(keys.take(i + 1).drop_last() =~= keys.take(i as int));
                assert(keys.take(i + 1).last() == (TimedLine { line: key.hash, at: key.at }));
                lemma_resynced_counts(was, keys.take(i as int));
            }
            let new = self.line(key.hash, key.at);
            out.push(new);
            i = i + 1;
        }
        proof {
            assert(keys.take(i as int) =~= keys);
        }
        out
    }
}

/// How many of a line there are.
pub open spec fn times(lines: Seq<u64>, line: u64) -> nat
    decreases lines.len(),
{
    if lines.len() == 0 {
        0
    } else {
        times(lines.drop_last(), line) + (if lines.last() == line {
            1nat
        } else {
            0nat
        })
    }
}

/// The lines without their times.
pub open spec fn bare(lines: Seq<TimedLine>) -> Seq<u64> {
    Seq::new(lines.len(), |i: int| lines[i].line)
}

pub proof fn lemma_times_push(lines: Seq<u64>, x: u64, line: u64)
    ensures
        times(lines.push(x), line) == times(lines, line) + (if x == line {
            1nat
        } else {
            0nat
        }),
{
    assert(lines.push(x).drop_last() =~= lines);
}

/// A restart neither loses nor duplicates: over the window that overlaps, of
/// each line the file adds exactly as many as it has beyond what the store
/// holds, so that store and file together come to the larger of the two.
pub proof fn a_restart_neither_loses_nor_duplicates(
    counts: Map<u64, u64>,
    until: u64,
    lines: Seq<TimedLine>,
    line: u64,
)
    requires
        forall|i: int| 0 <= i < lines.len() ==> !later((#[trigger] lines[i]).at, until),
    ensures
        ({
            let start = ResyncModel { counts, until, past: false, skipped: 0, added: 0 };
            let (end, new) = resynced_all(start, lines);
            let held = left(counts, line) as nat;
            let there = times(bare(lines), line);
            &&& times(new, line) == (if there > held {
                (there - held) as nat
            } else {
                0
            })
            &&& held + times(new, line) == (if there > held {
                there
            } else {
                held
            })
            &&& left(end.counts, line) == (if held > there {
                held - there
            } else {
                0
            })
            &&& !end.past
            &&& end.until == until
        }),
    decreases lines.len(),
{
    let start = ResyncModel { counts, until, past: false, skipped: 0, added: 0 };
    if lines.len() > 0 {
        let front = lines.drop_last();
        assert forall|i: int| 0 <= i < front.len() implies !later(
            (#[trigger] front[i]).at,
            until,
        ) by {
            assert(front[i] == lines[i]);
        }
        a_restart_neither_loses_nor_duplicates(counts, until, front, line);
        let last = lines.last();
        assert(!later(lines[lines.len() - 1].at, until));
        let (before, new) = resynced_all(start, front);
        assert(bare(lines) =~= bare(front).push(last.line));
        lemma_times_push(bare(front), last.line, line);
        lemma_times_push(new, last.line, line);
        if last.line != line {
            // Another line changes nothing for this one.
            a_restart_neither_loses_nor_duplicates(counts, until, front, last.line);
        }
    }
}

/// Once the window is behind us, every line is new, and it stays behind us.
pub proof fn what_is_past_the_window_is_all_new(m: ResyncModel, lines: Seq<TimedLine>)
    requires
        m.past,
    ensures
        resynced_all(m, lines).1 == bare(lines),
        resynced_all(m, lines).0.past,
    decreases lines.len(),
{
    if lines.len() > 0 {
        what_is_past_the_window_is_all_new(m, lines.drop_last());
        assert(bare(lines) =~= bare(lines.drop_last()).push(lines.last().line));
    } else {
        assert(bare(lines) =~= Seq::empty());
    }
}

// --------------------------------------------------------------------- poll

/// What the path shows.
#[derive(Clone, Copy, Debug, PartialEq, Eq, Structural)]
pub enum Stat {
    There { dev: u64, ino: u64, len: u64 },
    Missing,
    Failed,
}

/// What is to be done before the next read.
#[derive(Clone, Debug, PartialEq, Eq)]
pub enum Look {
    /// The path is the file that is held.
    Same,
    /// The path is another file: the one that is held is drained to its end,
    /// its last line committed, and only then the new one opened.
    Replaced,
    /// The file is shorter than what was read of it: it is read again from its
    /// start; what is said.
    Shrunk(String),
    /// There is no such path for now, and the file that is held is still the
    /// right one to read; what is said, where it was not before.
    Gone(Option<String>),
    /// The path cannot be looked at.
    Fail,
}

/// What is said of a file that shrank.
pub open spec fn shrunk_said(source: Seq<char>, from: u64, to: u64) -> Seq<char> {
    "timberfs: "@ + source + " shrank from "@ + decimal(from as nat) + " to "@ + decimal(to as nat)
        + " bytes (copytruncate?); re-reading it from the start — whatever was written between the copy and the truncate is lost to every reader, not just this one"@
}

/// A file that is followed: which one it is, what was read of it, how much was
/// read in this run, and whether its absence was told.
#[derive(Clone, Debug, PartialEq, Eq)]
pub struct Followed {
    pub dev: u64,
    pub ino: u64,
    pub reading: Reading,
    pub total: u64,
    pub missing_noted: bool,
}

impl Followed {
    /// Following a file from an offset.
    pub fn new(dev: u64, ino: u64, from: u64) -> (r: Followed)
        ensures
            r.dev == dev,
            r.ino == ino,
            r.reading.offset == from,
            r.reading.pending@ == Seq::<u8>::empty(),
            r.reading.wf(),
            r.total == 0,
            !r.missing_noted,
    {
        Followed { dev, ino, reading: Reading::at(from), total: 0, missing_noted: false }
    }

    /// What is to be done before the next read. Nothing is given up here: a
    /// replaced file is still the one that is held until it is drained.
    pub fn look(&mut self, source: &str, stat: Stat) -> (r: Look)
        requires
            old(self).reading.wf(),
        ensures
            final(self).reading.wf(),
            final(self).dev == old(self).dev,
            final(self).ino == old(self).ino,
            final(self).total == old(self).total,
            match stat {
                Stat::There { dev, ino, len } => !final(self).missing_noted && (if dev != old(
                    self,
                ).dev || ino != old(self).ino {
                    r is Replaced && final(self).reading == old(self).reading
                } else if len < old(self).reading.offset {
                    (r matches Look::Shrunk(s) && s@ == shrunk_said(
                        source@,
                        old(self).reading.offset,
                        len,
                    )) && final(self).reading.offset == 0 && final(self).reading.pending@.len()
                        == 0
                } else {
                    r is Same && final(self).reading == old(self).reading
                }),
                Stat::Missing => final(self).missing_noted && final(self).reading == old(
                    self,
                ).reading && (r matches Look::Gone(note) && (match note {
                    Some(s) => !old(self).missing_noted && s@ == gone_said(source@),
                    None => old(self).missing_noted,
                })),
                Stat::Failed => r is Fail && *final(self) == *old(self),
            },
            r is Replaced <==> is_replaced(old(self)@, stat),
            r is Shrunk <==> is_shrunk(old(self)@, stat),
            r is Gone <==> stat is Missing,
            !(r is Shrunk) ==> final(self).reading == old(self).reading,
            r is Shrunk ==> final(self)@.offset == 0 && final(self)@.pending == Seq::<u8>::empty(),
    {
        match stat {
            Stat::There { dev, ino, len } => {
                self.missing_noted = false;
                if dev != self.dev || ino != self.ino {
                    Look::Replaced
                } else if len < self.reading.offset {
                    let note = text("timberfs: ").concat(source).concat(" shrank from ").concat(
                        number_text(self.reading.offset).as_str(),
                    ).concat(" to ").concat(number_text(len).as_str()).concat(
                        " bytes (copytruncate?); re-reading it from the start — whatever was written between the copy and the truncate is lost to every reader, not just this one",
                    );
                    self.reading = Reading::at(0);
                    Look::Shrunk(note)
                } else {
                    Look::Same
                }
            },
            Stat::Missing => {
                if self.missing_noted {
                    Look::Gone(None)
                } else {
                    self.missing_noted = true;
                    Look::Gone(
                        Some(
                            text("timberfs: ").concat(source).concat(
                                " is gone for now; still reading the file it named",
                            ),
                        ),
                    )
                }
            },
            Stat::Failed => Look::Fail,
        }
    }

    /// Takes what was read and gives the lines that are complete.
    pub fn read(&mut self, bytes: &[u8]) -> (r: Vec<Vec<u8>>)
        requires
            old(self).reading.wf(),
            old(self).reading.offset + bytes@.len() <= u64::MAX,
            old(self).total + bytes@.len() <= u64::MAX,
        ensures
            final(self).reading.wf(),
            byte_texts(r@) == whole_lines(old(self).reading.pending@ + bytes@),
            final(self).reading.pending@ == remainder(old(self).reading.pending@ + bytes@),
            final(self).reading.offset == old(self).reading.offset + bytes@.len(),
            final(self).total == old(self).total + bytes@.len(),
            final(self).dev == old(self).dev,
            final(self).ino == old(self).ino,
            final(self).missing_noted == old(self).missing_noted,
    {
        self.total = self.total + bytes.len() as u64;
        self.reading.take(bytes)
    }

    /// Goes over to the file that the path is now; what is said. Only where
    /// the file that was held has been drained and has no line left.
    pub fn switch_to(&mut self, source: &str, dev: u64, ino: u64, tail: u64) -> (r: String)
        requires
            old(self).reading.pending@.len() == 0,
        ensures
            r@ == replaced_said(source@, tail as nat),
            final(self).dev == dev,
            final(self).ino == ino,
            final(self).reading.offset == 0,
            final(self).reading.pending@.len() == 0,
            final(self).reading.wf(),
            final(self).total == old(self).total,
            final(self).missing_noted == old(self).missing_noted,
    {
        self.dev = dev;
        self.ino = ino;
        self.reading = Reading::at(0);
        text("timberfs: ").concat(source).concat(
            " was replaced (rotation); drained its last ",
        ).concat(number_text(tail).as_str()).concat(" byte(s) and switched to the new file")
    }

    /// What is said at the end. An unfinished line is left for the next run,
    /// which resumes against the store's own lines, so that it arrives whole.
    pub fn summary(&self, source: &str, stamped: u64, inherited: u64) -> (r: String)
        ensures
            r@ == "timberfs: stopped following "@ + source@ + "; "@ + decimal(self.total as nat)
                + " byte(s) this run, "@ + decimal(stamped as nat) + " entries stamped, "@
                + decimal(inherited as nat) + " inherited"@ + (if self.reading.pending@.len() == 0 {
                ""@
            } else {
                " ("@ + decimal(self.reading.pending@.len())
                    + " byte(s) of an unfinished line left for the next run)"@
            }),
    {
        let n: usize = self.reading.pending.len();
        let unfinished = if n == 0 {
            text("")
        } else {
            text(" (").concat(number_text(n as u64).as_str()).concat(
                " byte(s) of an unfinished line left for the next run)",
            )
        };
        text("timberfs: stopped following ").concat(source).concat("; ").concat(
            number_text(self.total).as_str(),
        ).concat(" byte(s) this run, ").concat(number_text(stamped).as_str()).concat(
            " entries stamped, ",
        ).concat(number_text(inherited).as_str()).concat(" inherited").concat(
            unfinished.as_str(),
        )
    }
}

/// What is followed.
pub struct FollowModel {
    pub dev: u64,
    pub ino: u64,
    pub offset: u64,
    pub pending: Seq<u8>,
    pub total: u64,
    pub missing_noted: bool,
}

impl View for Followed {
    type V = FollowModel;

    open spec fn view(&self) -> FollowModel {
        FollowModel {
            dev: self.dev,
            ino: self.ino,
            offset: self.reading.offset,
            pending: self.reading.pending@,
            total: self.total,
            missing_noted: self.missing_noted,
        }
    }
}

/// Whether the path is another file than the one that is held.
pub open spec fn is_replaced(f: FollowModel, stat: Stat) -> bool {
    match stat {
        Stat::There { dev, ino, len: _ } => dev != f.dev || ino != f.ino,
        _ => false,
    }
}

/// Whether the file that is held is shorter than what was read of it.
pub open spec fn is_shrunk(f: FollowModel, stat: Stat) -> bool {
    match stat {
        Stat::There { dev, ino, len } => dev == f.dev && ino == f.ino && len < f.offset,
        _ => false,
    }
}

/// The last line of a file that will never grow again, if it has one.
pub open spec fn last_line(rest: Seq<u8>) -> Seq<Seq<u8>> {
    if rest.len() > 0 {
        seq![rest]
    } else {
        Seq::empty()
    }
}

/// The lines that a turn hands out, and what is followed after it. A replaced
/// file is first drained of its tail, down to a last line without a newline;
/// what is read then is the new file's.
pub open spec fn polled(f: FollowModel, stat: Stat, tail: Seq<u8>, bytes: Seq<u8>) -> (
    FollowModel,
    Seq<Seq<u8>>,
) {
    let noted = match stat {
        Stat::There { .. } => false,
        Stat::Missing => true,
        Stat::Failed => f.missing_noted,
    };
    if is_replaced(f, stat) {
        (
            FollowModel {
                dev: stat->dev,
                ino: stat->ino,
                offset: bytes.len() as u64,
                pending: remainder(bytes),
                total: (f.total + tail.len() + bytes.len()) as u64,
                missing_noted: noted,
            },
            whole_lines(f.pending + tail) + last_line(remainder(f.pending + tail)) + whole_lines(
                bytes,
            ),
        )
    } else {
        let kept = if is_shrunk(f, stat) {
            Seq::empty()
        } else {
            f.pending
        };
        let from = if is_shrunk(f, stat) {
            0
        } else {
            f.offset as int
        };
        (
            FollowModel {
                offset: (from + bytes.len()) as u64,
                pending: remainder(kept + bytes),
                total: (f.total + bytes.len()) as u64,
                missing_noted: noted,
                ..f
            },
            whole_lines(kept + bytes),
        )
    }
}

/// What is said of a last line without a newline.
pub open spec fn fragment_said(n: nat) -> Seq<char> {
    "timberfs: committing a final "@ + decimal(n)
        + " byte(s) that never got their newline (the file was replaced mid-line)"@
}

/// What is said of a file that was replaced.
pub open spec fn replaced_said(source: Seq<char>, tail: nat) -> Seq<char> {
    "timberfs: "@ + source + " was replaced (rotation); drained its last "@ + decimal(tail)
        + " byte(s) and switched to the new file"@
}

/// What is said of a file that is not there.
pub open spec fn gone_said(source: Seq<char>) -> Seq<char> {
    "timberfs: "@ + source + " is gone for now; still reading the file it named"@
}

/// What a turn says.
pub open spec fn poll_said(source: Seq<char>, f: FollowModel, stat: Stat, tail: Seq<u8>) -> Seq<
    Seq<char>,
> {
    let rest = remainder(f.pending + tail);
    match stat {
        Stat::There { dev: _, ino: _, len } => if is_replaced(f, stat) {
            (if rest.len() > 0 {
                seq![fragment_said(rest.len())]
            } else {
                Seq::empty()
            }).push(replaced_said(source, tail.len()))
        } else if is_shrunk(f, stat) {
            seq![shrunk_said(source, f.offset, len)]
        } else {
            Seq::empty()
        },
        Stat::Missing => if f.missing_noted {
            Seq::empty()
        } else {
            seq![gone_said(source)]
        },
        Stat::Failed => Seq::empty(),
    }
}

/// What a turn comes to.
pub struct Polled {
    pub lines: Vec<Vec<u8>>,
    /// What is said.
    pub notes: Vec<String>,
    /// Whether nothing was read, so that the follower waits before it looks
    /// again.
    pub idle: bool,
}

proof fn lemma_byte_texts_push(v: Seq<Vec<u8>>, x: Vec<u8>)
    ensures
        byte_texts(v.push(x)) == byte_texts(v).push(x@),
{
    assert(byte_texts(v.push(x)) =~= byte_texts(v).push(x@));
}

fn move_lines(out: &mut Vec<Vec<u8>>, more: Vec<Vec<u8>>)
    ensures
        byte_texts(final(out)@) == byte_texts(old(out)@) + byte_texts(more@),
{
    let ghost head = out@;
    let mut more = more;
    let ghost tail = more@;
    out.append(&mut more);
    proof {
        assert(byte_texts(out@) =~= byte_texts(head) + byte_texts(tail));
    }
}

impl Followed {
    /// One turn: told what the path is now, what was left to read of the file
    /// that is held, where it was replaced, and what was read of the file that
    /// the path is. Gives the lines that are complete, in the order they were
    /// written.
    pub fn poll(&mut self, source: &str, stat: Stat, tail: &[u8], bytes: &[u8]) -> (r: Polled)
        requires
            old(self).reading.wf(),
            !(stat is Failed),
            !is_replaced(old(self)@, stat) ==> tail@.len() == 0,
            old(self).reading.offset + tail@.len() + bytes@.len() <= u64::MAX,
            old(self).total + tail@.len() + bytes@.len() <= u64::MAX,
        ensures
            final(self).reading.wf(),
            (final(self)@, byte_texts(r.lines@)) == polled(old(self)@, stat, tail@, bytes@),
            texts(r.notes@) == poll_said(source@, old(self)@, stat, tail@),
            r.idle == (bytes@.len() == 0),
    {
        let ghost was = self@;
        let mut notes = nothing_said();
        let mut lines: Vec<Vec<u8>> = Vec::new();
        proof {
            assert(byte_texts(lines@) =~= Seq::<Seq<u8>>::empty());
        }
        match self.look(source, stat) {
            Look::Same => {},
            Look::Shrunk(note) => {
                say(&mut notes, note);
                proof {
                    assert(self.reading.pending@ =~= Seq::<u8>::empty());
                }
            },
            Look::Gone(note) => {
                if let Some(s) = note {
                    say(&mut notes, s);
                }
            },
            Look::Fail => {},
            Look::Replaced => {
                let drained = self.read(tail);
                move_lines(&mut lines, drained);
                if let Some(line) = self.reading.finish() {
                    say(&mut notes, fragment_note(&line));
                    proof {
                        lemma_byte_texts_push(lines@, line);
                    }
                    lines.push(line);
                }
                if let Stat::There { dev, ino, len: _ } = stat {
                    let note = self.switch_to(source, dev, ino, tail.len() as u64);
                    say(&mut notes, note);
                }
                proof {
                    let all = was.pending + tail@;
                    assert(byte_texts(lines@) =~= whole_lines(all) + last_line(remainder(all)));
                    assert(self.reading.pending@ =~= Seq::<u8>::empty());
                }
            },
        }
        let ghost kept = self.reading.pending@;
        let ghost so_far = byte_texts(lines@);
        let fresh = self.read(bytes);
        move_lines(&mut lines, fresh);
        proof {
            assert(Seq::<u8>::empty() + bytes@ =~= bytes@);
            if !is_replaced(was, stat) {
                assert(so_far =~= Seq::<Seq<u8>>::empty());
                assert(byte_texts(lines@) =~= whole_lines(kept + bytes@));
            }
        }
        proof {
            assert(texts(notes@) =~= poll_said(source@, was, stat, tail@));
        }
        Polled { lines, notes, idle: bytes.len() == 0 }
    }
}

/// Rotation strands nothing: the lines of a turn, and what is kept, are what
/// was kept and everything that was read, in order, unless the file shrank.
pub proof fn rotation_strands_nothing(f: FollowModel, stat: Stat, tail: Seq<u8>, bytes: Seq<u8>)
    requires
        !is_shrunk(f, stat),
        !is_replaced(f, stat) ==> tail.len() == 0,
    ensures
        concatenated(polled(f, stat, tail, bytes).1) + polled(f, stat, tail, bytes).0.pending
            == f.pending + tail + bytes,
{
    if is_replaced(f, stat) {
        let held = f.pending + tail;
        cutting_lines_loses_nothing(held);
        cutting_lines_loses_nothing(bytes);
        let first = whole_lines(held) + last_line(remainder(held));
        lemma_concatenated_plus(whole_lines(held), last_line(remainder(held)));
        lemma_concatenated_plus(first, whole_lines(bytes));
        lemma_last_line(remainder(held));
        assert(concatenated(first) =~= held);
        assert(held + concatenated(whole_lines(bytes)) + remainder(bytes) =~= held + (concatenated(
            whole_lines(bytes),
        ) + remainder(bytes)));
    } else {
        cutting_lines_loses_nothing(f.pending + bytes);
        assert(f.pending + tail + bytes =~= f.pending + bytes);
    }
}

proof fn lemma_last_line(rest: Seq<u8>)
    ensures
        concatenated(last_line(rest)) == rest,
{
    if rest.len() > 0 {
        assert(seq![rest].drop_last() =~= Seq::<Seq<u8>>::empty());
        assert(concatenated(seq![rest]) == concatenated(Seq::<Seq<u8>>::empty()) + rest);
        assert(Seq::<u8>::empty() + rest =~= rest);
    } else {
        assert(rest =~= Seq::<u8>::empty());
    }
}

proof fn lemma_concatenated_plus(a: Seq<Seq<u8>>, b: Seq<Seq<u8>>)
    ensures
        concatenated(a + b) == concatenated(a) + concatenated(b),
    decreases b.len(),
{
    if b.len() == 0 {
        assert(a + b =~= a);
        assert(concatenated(a) + concatenated(b) =~= concatenated(a));
    } else {
        assert((a + b).drop_last() =~= a + b.drop_last());
        lemma_concatenated_plus(a, b.drop_last());
        assert(concatenated(a) + concatenated(b.drop_last()) + b.last() =~= concatenated(a) + (
        concatenated(b.drop_last()) + b.last()));
    }
}

// ------------------------------------------------------------------- start

/// Why nothing is followed.
#[derive(Debug, Clone, PartialEq, Eq)]
pub enum FollowError {
    Measure(MeasureError),
    Bundle(String),
}

impl FollowError {
    /// What the error says.
    pub open spec fn said(self) -> Seq<char> {
        match self {
            FollowError::Measure(e) => e.said(),
            FollowError::Bundle(dest) => dest@
                + " is a .timber transfer bundle — bundles are read-only; follow into a log instead"@,
        }
    }

    /// What the error says.
    pub fn message(&self) -> (r: String)
        ensures
            r@ == self.said(),
    {
        match self {
            FollowError::Measure(e) => e.message(),
            FollowError::Bundle(dest) => text(dest.as_str()).concat(
                " is a .timber transfer bundle — bundles are read-only; follow into a log instead",
            ),
        }
    }
}

/// Whether a file can be followed into a destination.
pub fn check_follow(
    dest: &str,
    bundle: bool,
    retain: Option<&str>,
    retain_size: Option<&str>,
) -> (r: Result<(), FollowError>)
    ensures
        match r {
            Ok(()) => !bundle && policy_outcome(opt_str(retain), opt_str(retain_size), Ok(())),
            Err(FollowError::Measure(e)) => policy_outcome(
                opt_str(retain),
                opt_str(retain_size),
                Err(e),
            ),
            Err(FollowError::Bundle(t)) => bundle && t@ == dest@ && policy_outcome(
                opt_str(retain),
                opt_str(retain_size),
                Ok(()),
            ),
        },
        r is Ok ==> !bundle && (retain is Some ==> duration_ms(retain->Some_0@) is Value)
            && (retain_size is Some ==> size_bytes(retain_size->Some_0@) is Value),
        bundle ==> r is Err,
{
    if let Err(e) = check_policy(retain, retain_size) {
        return Err(FollowError::Measure(e));
    }
    if bundle {
        return Err(FollowError::Bundle(text(dest)));
    }
    Ok(())
}

/// What a wait for the file to appear comes to.
#[derive(Clone, Debug, PartialEq, Eq)]
pub enum Waiting {
    /// The file is there.
    Ready,
    /// A stop was asked for.
    Stop,
    /// So many milliseconds are waited; what is said, the first time.
    Sleep(u64, Option<String>),
}

/// What a wait for the file to appear comes to. A follower may start before
/// the program that writes its log.
pub fn wait_step(source: &str, there: bool, stopping: bool, waited: bool, poll_ms: u64) -> (r:
    Waiting)
    ensures
        if there {
            r is Ready
        } else if stopping {
            r is Stop
        } else {
            r matches Waiting::Sleep(ms, note) && ms == (if poll_ms > 100 {
                poll_ms
            } else {
                100
            }) && (match note {
                Some(s) => !waited && s@ == "timberfs: "@ + source@
                    + " does not exist yet; waiting for it"@,
                None => waited,
            })
        },
        r is Ready <==> there,
        r is Stop <==> !there && stopping,
        r is Sleep ==> r->Sleep_0 >= 100 && r->Sleep_0 >= poll_ms && (r->Sleep_0 == 100
            || r->Sleep_0 == poll_ms),
        r is Sleep ==> (r->Sleep_1 is Some <==> !waited),
{
    if there {
        return Waiting::Ready;
    }
    if stopping {
        return Waiting::Stop;
    }
    let ms: u64 = if poll_ms > 100 {
        poll_ms
    } else {
        100
    };
    if waited {
        Waiting::Sleep(ms, None)
    } else {
        Waiting::Sleep(
            ms,
            Some(text("timberfs: ").concat(source).concat(" does not exist yet; waiting for it")),
        )
    }
}

} // verus!
