//! Appending a stream to a store: what its flags mean, what it declares, and
//! what each turn of its loop does next.

use crate::bark::{opt_str, unlimited, Retention};
use crate::interest::RotateStats;
use crate::measure::{amount, measured, Amount};
use crate::text::{chars_of, debug_text, decimal, number_text, quoted, text, trim, trimmed};
use vstd::prelude::*;
use vstd::slice::slice_subrange;
use vstd::string::StringExecFns;

verus! {

/// Why a duration or a size is not one, with the text that was given.
#[derive(Debug, Clone, PartialEq, Eq)]
pub enum MeasureError {
    UnrecognizedDuration(String),
    DurationOutOfRange(String),
    UnrecognizedSize(String),
    SizeOutOfRange(String),
}

impl MeasureError {
    /// What the error says.
    pub open spec fn said(self) -> Seq<char> {
        match self {
            MeasureError::UnrecognizedDuration(s) => "unrecognized duration "@ + quoted(s@)
                + " (try 30d, 12h, 45m, 90s)"@,
            MeasureError::DurationOutOfRange(s) => "duration "@ + quoted(s@) + " out of range"@,
            MeasureError::UnrecognizedSize(s) => "unrecognized size "@ + quoted(s@)
                + " (try 200G, 512M, 64K)"@,
            MeasureError::SizeOutOfRange(s) => "size "@ + quoted(s@) + " out of range"@,
        }
    }

    /// What the error says.
    pub fn message(&self) -> (r: String)
        ensures
            r@ == self.said(),
    {
        match self {
            MeasureError::UnrecognizedDuration(s) => text("unrecognized duration ").concat(
                debug_text(s.as_str()).as_str(),
            ).concat(" (try 30d, 12h, 45m, 90s)"),
            MeasureError::DurationOutOfRange(s) => text("duration ").concat(
                debug_text(s.as_str()).as_str(),
            ).concat(" out of range"),
            MeasureError::UnrecognizedSize(s) => text("unrecognized size ").concat(
                debug_text(s.as_str()).as_str(),
            ).concat(" (try 200G, 512M, 64K)"),
            MeasureError::SizeOutOfRange(s) => text("size ").concat(
                debug_text(s.as_str()).as_str(),
            ).concat(" out of range"),
        }
    }
}

/// How many milliseconds the unit letter of a duration stands for.
pub open spec fn duration_unit(c: char) -> Option<nat> {
    if c == 'w' || c == 'W' {
        Some(604_800_000)
    } else if c == 'd' || c == 'D' {
        Some(86_400_000)
    } else if c == 'h' || c == 'H' {
        Some(3_600_000)
    } else if c == 'm' || c == 'M' {
        Some(60_000)
    } else if c == 's' || c == 'S' {
        Some(1_000)
    } else {
        None
    }
}

/// A duration in milliseconds: a number and a unit letter, or bare seconds.
pub open spec fn duration_ms(s: Seq<char>) -> Amount {
    let t = trim(s);
    if t.len() > 0 && duration_unit(t.last()) is Some {
        amount(trim(t.drop_last()), duration_unit(t.last())->Some_0)
    } else {
        amount(trim(t), 1_000)
    }
}

fn unit_ms(c: char) -> (r: Option<u64>)
    ensures
        match r {
            Some(n) => duration_unit(c) == Some(n as nat),
            None => duration_unit(c) is None,
        },
{
    match c {
        'w' | 'W' => Some(604_800_000),
        'd' | 'D' => Some(86_400_000),
        'h' | 'H' => Some(3_600_000),
        'm' | 'M' => Some(60_000),
        's' | 'S' => Some(1_000),
        _ => None,
    }
}

fn duration_amount(v: &[char]) -> (r: Amount)
    ensures
        r == duration_ms(v@),
{
    let t: &[char] = trimmed(v);
    if t.len() > 0 {
        if let Some(unit) = unit_ms(t[t.len() - 1]) {
            let num: &[char] = slice_subrange(t, 0, t.len() - 1);
            assert(num@ =~= t@.drop_last());
            return measured(trimmed(num), unit);
        }
    }
    measured(trimmed(t), 1_000)
}

/// What a duration's reading comes to: the amount, or the error that says why
/// there is none.
pub open spec fn duration_outcome(s: Seq<char>, r: Result<u64, MeasureError>) -> bool {
    match r {
        Ok(ms) => duration_ms(s) == Amount::Value(ms),
        Err(MeasureError::UnrecognizedDuration(t)) => duration_ms(s) == Amount::Unrecognized && t@
            == s,
        Err(MeasureError::DurationOutOfRange(t)) => duration_ms(s) == Amount::OutOfRange && t@
            == s,
        Err(_) => false,
    }
}

/// "30d", "12h", "45m", "90s", "2w", or bare seconds; fractions allowed.
pub fn parse_duration_ms(s: &str) -> (r: Result<u64, MeasureError>)
    ensures
        duration_outcome(s@, r),
{
    let cs = chars_of(s);
    match duration_amount(cs.as_slice()) {
        Amount::Value(ms) => Ok(ms),
        Amount::Unrecognized => Err(MeasureError::UnrecognizedDuration(text(s))),
        Amount::OutOfRange => Err(MeasureError::DurationOutOfRange(text(s))),
    }
}

/// An ASCII letter in upper case; any other character as it is.
pub open spec fn upper_char(c: char) -> char {
    if 'a' <= c && c <= 'z' {
        (c as u32 - 32) as char
    } else {
        c
    }
}

/// A text with its ASCII letters in upper case.
pub open spec fn upper(s: Seq<char>) -> Seq<char> {
    Seq::new(s.len(), |i: int| upper_char(s[i]))
}

/// A text without the letter at its end.
pub open spec fn without_last(s: Seq<char>, c: char) -> Seq<char> {
    if s.len() > 0 && s.last() == c {
        s.drop_last()
    } else {
        s
    }
}

/// How many bytes the unit letter of a size stands for.
pub open spec fn size_unit(c: char) -> Option<nat> {
    if c == 'K' {
        Some(0x400)
    } else if c == 'M' {
        Some(0x10_0000)
    } else if c == 'G' {
        Some(0x4000_0000)
    } else if c == 'T' {
        Some(0x100_0000_0000)
    } else {
        None
    }
}

/// A size in bytes: a number and a unit letter, with `B` or `iB` behind it or
/// not, or bare bytes.
pub open spec fn size_bytes(s: Seq<char>) -> Amount {
    let t = without_last(without_last(upper(trim(s)), 'B'), 'I');
    if t.len() > 0 && size_unit(t.last()) is Some {
        amount(trim(t.drop_last()), size_unit(t.last())->Some_0)
    } else {
        amount(trim(t), 1)
    }
}

fn upper_of(c: char) -> (r: char)
    ensures
        r == upper_char(c),
{
    if 'a' <= c && c <= 'z' {
        (c as u8 - 32u8) as char
    } else {
        c
    }
}

fn uppered(v: &[char]) -> (r: Vec<char>)
    ensures
        r@ == upper(v@),
{
    let mut r: Vec<char> = Vec::new();
    let mut i: usize = 0;
    while i < v.len()
        invariant
            i <= v@.len(),
            r@ == upper(v@).take(i as int),
        decreases v@.len() - i,
    {
        r.push(upper_of(v[i]));
        i = i + 1;
        assert(r@ =~= upper(v@).take(i as int));
    }
    assert(r@ =~= upper(v@));
    r
}

fn cut_last(v: &[char], c: char) -> (r: &[char])
    ensures
        r@ == without_last(v@, c),
{
    if v.len() > 0 && v[v.len() - 1] == c {
        let r: &[char] = slice_subrange(v, 0, v.len() - 1);
        assert(r@ =~= v@.drop_last());
        r
    } else {
        v
    }
}

fn unit_bytes(c: char) -> (r: Option<u64>)
    ensures
        match r {
            Some(n) => size_unit(c) == Some(n as nat),
            None => size_unit(c) is None,
        },
{
    match c {
        'K' => Some(0x400),
        'M' => Some(0x10_0000),
        'G' => Some(0x4000_0000),
        'T' => Some(0x100_0000_0000),
        _ => None,
    }
}

fn size_amount(v: &[char]) -> (r: Amount)
    ensures
        r == size_bytes(v@),
{
    let up = uppered(trimmed(v));
    let t: &[char] = cut_last(cut_last(up.as_slice(), 'B'), 'I');
    if t.len() > 0 {
        if let Some(unit) = unit_bytes(t[t.len() - 1]) {
            let num: &[char] = slice_subrange(t, 0, t.len() - 1);
            assert(num@ =~= t@.drop_last());
            return measured(trimmed(num), unit);
        }
    }
    measured(trimmed(t), 1)
}

/// What a size's reading comes to.
pub open spec fn size_outcome(s: Seq<char>, r: Result<u64, MeasureError>) -> bool {
    match r {
        Ok(n) => size_bytes(s) == Amount::Value(n),
        Err(MeasureError::UnrecognizedSize(t)) => size_bytes(s) == Amount::Unrecognized && t@ == s,
        Err(MeasureError::SizeOutOfRange(t)) => size_bytes(s) == Amount::OutOfRange && t@ == s,
        Err(_) => false,
    }
}

/// "200G", "512M", "1T", "64K" (powers of 1024; optional B/iB suffix), or bare
/// bytes; fractions allowed.
pub fn parse_size_bytes(s: &str) -> (r: Result<u64, MeasureError>)
    ensures
        size_outcome(s@, r),
{
    let cs = chars_of(s);
    match size_amount(cs.as_slice()) {
        Amount::Value(n) => Ok(n),
        Amount::Unrecognized => Err(MeasureError::UnrecognizedSize(text(s))),
        Amount::OutOfRange => Err(MeasureError::SizeOutOfRange(text(s))),
    }
}

// ------------------------------------------------------------ live policy

/// When a manifest was changed, where that is known, and how long it is: the
/// file almost never changes, so it is read again only where this does.
#[derive(Clone, Copy, Debug, PartialEq, Eq, Structural)]
pub struct Stamp {
    pub modified: Option<u64>,
    pub len: u64,
}

/// A store's retention policy, read from the manifest again whenever that
/// changes, so that setting it on a live log takes effect without a restart. A
/// manifest that stops parsing keeps the last good policy, with one warning:
/// never silently unbounded, and never a dead producer.
#[derive(Clone, Debug)]
pub struct LivePolicy {
    pub name: String,
    pub last: Retention,
    pub warned: bool,
    /// The manifest at the last parse; nothing where there was none.
    pub stamp: Option<Stamp>,
}

/// What a manifest that cannot be read is said to be.
pub open spec fn unreadable_manifest(name: Seq<char>, why: Seq<char>) -> Seq<char> {
    "timberfs: "@ + name + ": manifest unreadable ("@ + why
        + "); keeping the previous retention policy (fix it with `timberfs set`)"@
}

impl LivePolicy {
    /// No policy yet.
    pub fn new(name: &str) -> (r: LivePolicy)
        ensures
            r.name@ == name@,
            r.last == unlimited(),
            !r.warned,
            r.stamp is None,
    {
        LivePolicy {
            name: text(name),
            last: Retention { max_age_ms: None, max_comp_bytes: None, unconsumed: false },
            warned: false,
            stamp: None,
        }
    }

    /// Whether the manifest has to be read again.
    pub fn stale(&self, now: Option<Stamp>) -> (r: bool)
        ensures
            r == (now != self.stamp),
    {
        match (now, self.stamp) {
            (None, None) => false,
            (Some(a), Some(b)) => a != b,
            _ => true,
        }
    }

    /// The policy in force, from the manifest as it is now and what it
    /// declares; and what is to be said, where it cannot be read and that was
    /// not said before.
    pub fn refresh(&mut self, now: Option<Stamp>, declared: &Result<Retention, String>) -> (r: (
        Retention,
        Option<String>,
    ))
        ensures
            r.0 == final(self).last,
            final(self).name@ == old(self).name@,
            final(self).stamp == now,
            if now == old(self).stamp {
                final(self).last == old(self).last && final(self).warned == old(self).warned
                    && r.1 is None
            } else {
                match *declared {
                    Ok(p) => final(self).last == p && !final(self).warned && r.1 is None,
                    Err(why) => final(self).last == old(self).last && final(self).warned && (
                    match r.1 {
                        Some(s) => !old(self).warned && s@ == unreadable_manifest(
                            old(self).name@,
                            why@,
                        ),
                        None => old(self).warned,
                    }),
                }
            },
    {
        if !self.stale(now) {
            return (self.last, None);
        }
        self.stamp = now;
        match declared {
            Ok(p) => {
                self.warned = false;
                self.last = *p;
                (self.last, None)
            },
            Err(why) => {
                let mut note: Option<String> = None;
                if !self.warned {
                    note = Some(
                        text("timberfs: ").concat(self.name.as_str()).concat(
                            ": manifest unreadable (",
                        ).concat(why.as_str()).concat(
                            "); keeping the previous retention policy (fix it with `timberfs set`)",
                        ),
                    );
                    self.warned = true;
                }
                (self.last, note)
            },
        }
    }
}

/// What is said of what retention dropped. `first` and `last` are the first
/// and the last write of it, as they are shown.
pub fn retention_note(name: &str, stats: &RotateStats, first: &str, last: &str) -> (r: String)
    ensures
        r@ == "timberfs: "@ + name@ + ": retention dropped "@ + decimal(stats.chunks_moved as nat)
            + " chunk(s), "@ + decimal(stats.comp_bytes as nat) + " compressed bytes, written "@
            + first@ + " .. "@ + last@,
{
    text("timberfs: ").concat(name).concat(": retention dropped ").concat(
        number_text(stats.chunks_moved as u64).as_str(),
    ).concat(" chunk(s), ").concat(number_text(stats.comp_bytes).as_str()).concat(
        " compressed bytes, written ",
    ).concat(first).concat(" .. ").concat(last)
}

/// Whether retention has anything to enforce.
pub fn enforces(policy: &Retention) -> (r: bool)
    ensures
        r == (policy.max_age_ms is Some || policy.max_comp_bytes is Some || policy.unconsumed),
{
    policy.is_some()
}

// ------------------------------------------------------------- housekeeping

/// What a tick does for the index: whether it is to be extended, because it is
/// declared and the flushed chunks are not those that were indexed last.
pub fn index_due(chunks: usize, indexed: usize, declared: bool) -> (r: bool)
    ensures
        r == (chunks != indexed && declared),
{
    chunks != indexed && declared
}

/// Thousandths as they are written after a whole number: without the zeros at
/// the end, and not at all where there are none.
pub open spec fn thousandths(f: nat) -> Seq<char> {
    if f == 0 {
        ""@
    } else if f % 100 == 0 {
        "."@ + decimal(f / 100)
    } else if f % 10 == 0 {
        "."@ + decimal(f / 100) + decimal(f / 10 % 10)
    } else {
        "."@ + decimal(f / 100) + decimal(f / 10 % 10) + decimal(f % 10)
    }
}

/// Milliseconds as they are shown, in seconds.
pub open spec fn secs_said(ms: nat) -> Seq<char> {
    decimal(ms / 1000) + thousandths(ms % 1000)
}

fn fmt_secs(ms: u64) -> (r: String)
    ensures
        r@ == secs_said(ms as nat),
{
    let f: u64 = ms % 1000;
    let mut r = number_text(ms / 1000);
    if f != 0 {
        r.append(".");
        r.append(number_text(f / 100).as_str());
        if f % 100 != 0 {
            r.append(number_text(f / 10 % 10).as_str());
            if f % 10 != 0 {
                r.append(number_text(f % 10).as_str());
            }
        }
    }
    proof {
        reveal_strlit("");
        assert(r@ =~= secs_said(ms as nat));
    }
    r
}

/// What is said where a log's writer lock cannot be had. `who` is how the
/// holder describes itself, and `wait_ms` how long was waited for it.
pub open spec fn conflict_said(
    name: Seq<char>,
    who: Option<Seq<char>>,
    wait_ms: nat,
) -> Seq<char> {
    let wait = if wait_ms > 0 {
        " — still held after waiting "@ + secs_said(wait_ms) + "s"@
    } else {
        ""@
    };
    match who {
        Some(w) => name + " already has a writer: "@ + w + wait
            + "; one writer per log, so that one must exit before this one can take over"@,
        None => name + " already has a writer (another timberfs writer or a rotation)"@ + wait,
    }
}

/// What is said where a log's writer lock cannot be had: the holder is named
/// if it recorded itself, and that we waited, so that a handoff which is stuck
/// reads differently from two writers started by mistake.
pub fn writer_conflict(name: &str, who: Option<&str>, wait_ms: u64) -> (r: String)
    ensures
        r@ == conflict_said(name@, opt_str(who), wait_ms as nat),
{
    let wait = if wait_ms > 0 {
        text(" — still held after waiting ").concat(fmt_secs(wait_ms).as_str()).concat("s")
    } else {
        text("")
    };
    match who {
        Some(w) => text(name).concat(" already has a writer: ").concat(w).concat(
            wait.as_str(),
        ).concat("; one writer per log, so that one must exit before this one can take over"),
        None => text(name).concat(
            " already has a writer (another timberfs writer or a rotation)",
        ).concat(wait.as_str()),
    }
}

/// What is said where a backing directory is served by a mount.
pub fn mounted_message(dir: &str, mountpoint: Option<&str>) -> (r: String)
    ensures
        r@ == "backing directory "@ + dir@ + " is served by a timberfs mount"@ + (
        match mountpoint {
            Some(m) => " (mounted on "@ + m@ + ")"@,
            None => ""@,
        }) + "; write through the mount instead, or unmount first"@,
{
    let at = match mountpoint {
        Some(m) => text(" (mounted on ").concat(m).concat(")"),
        None => text(""),
    };
    text("backing directory ").concat(dir).concat(" is served by a timberfs mount").concat(
        at.as_str(),
    ).concat("; write through the mount instead, or unmount first")
}

// ---------------------------------------------------------------- appending

/// Why nothing is appended.
#[derive(Debug, Clone, PartialEq, Eq)]
pub enum AppendError {
    Measure(MeasureError),
    Bundle(String),
}

impl AppendError {
    /// What the error says.
    pub open spec fn said(self) -> Seq<char> {
        match self {
            AppendError::Measure(e) => e.said(),
            AppendError::Bundle(target) => target@
                + " is a .timber transfer bundle — bundles are read-only (query/index/export work directly on them); import it into a log to write"@,
        }
    }

    /// What the error says.
    pub fn message(&self) -> (r: String)
        ensures
            r@ == self.said(),
    {
        match self {
            AppendError::Measure(e) => e.message(),
            AppendError::Bundle(target) => text(target.as_str()).concat(
                " is a .timber transfer bundle — bundles are read-only (query/index/export work directly on them); import it into a log to write",
            ),
        }
    }
}

/// What is wrong with retention flags, if anything is: the age first.
pub open spec fn policy_outcome(
    retain: Option<Seq<char>>,
    retain_size: Option<Seq<char>>,
    r: Result<(), MeasureError>,
) -> bool {
    match r {
        Ok(()) => (retain is Some ==> duration_ms(retain->Some_0) is Value) && (
        retain_size is Some ==> size_bytes(retain_size->Some_0) is Value),
        Err(e) => (retain is Some && duration_outcome(retain->Some_0, Err(e))) || (
        retain_size is Some && (retain is Some ==> duration_ms(retain->Some_0) is Value)
            && size_outcome(retain_size->Some_0, Err(e))),
    }
}

/// Whether the retention that flags ask for can be read: asked up front, as
/// the flags are written into the manifest.
pub fn check_policy(retain: Option<&str>, retain_size: Option<&str>) -> (r: Result<
    (),
    MeasureError,
>)
    ensures
        policy_outcome(opt_str(retain), opt_str(retain_size), r),
{
    if let Some(s) = retain {
        if let Err(e) = parse_duration_ms(s) {
            return Err(e);
        }
    }
    if let Some(s) = retain_size {
        if let Err(e) = parse_size_bytes(s) {
            return Err(e);
        }
    }
    Ok(())
}

/// Whether something can be appended to a target.
pub fn check_append(
    target: &str,
    bundle: bool,
    retain: Option<&str>,
    retain_size: Option<&str>,
) -> (r: Result<(), AppendError>)
    ensures
        match r {
            Ok(()) => !bundle && policy_outcome(opt_str(retain), opt_str(retain_size), Ok(())),
            Err(AppendError::Measure(e)) => policy_outcome(
                opt_str(retain),
                opt_str(retain_size),
                Err(e),
            ),
            Err(AppendError::Bundle(t)) => bundle && t@ == target@ && policy_outcome(
                opt_str(retain),
                opt_str(retain_size),
                Ok(()),
            ),
        },
        r is Ok ==> !bundle && (retain is Some ==> duration_ms(retain->Some_0@) is Value)
            && (retain_size is Some ==> size_bytes(retain_size->Some_0@) is Value),
        bundle ==> r is Err,
{
    if let Err(e) = check_policy(retain, retain_size) {
        return Err(AppendError::Measure(e));
    }
    if bundle {
        return Err(AppendError::Bundle(text(target)));
    }
    Ok(())
}

/// What a turn of the loop finds.
#[derive(Clone, Copy, Debug, PartialEq, Eq, Structural)]
pub enum InputEvent {
    /// A stop was asked for.
    Stop,
    /// So many bytes were read.
    Read(usize),
    /// A signal came while reading.
    Interrupted,
    Failed,
}

/// What a turn of the loop does.
#[derive(Clone, Copy, Debug, PartialEq, Eq, Structural)]
pub enum InputAction {
    /// The bytes that were read go to the store.
    Append(usize),
    /// The loop goes round again.
    Again,
    /// Everything is flushed, retention is enforced, the index is extended and
    /// what was appended is told.
    Finish,
    /// Everything is flushed, the index is extended, and the error is told.
    Abort,
}

/// One run of the appender: how much it has appended, and how it ended.
#[derive(Clone, Copy, Debug, PartialEq, Eq, Structural)]
pub struct AppendRun {
    pub total: u64,
    pub interrupted: bool,
}

impl AppendRun {
    /// Nothing appended.
    pub fn new() -> (r: AppendRun)
        ensures
            r.total == 0,
            !r.interrupted,
    {
        AppendRun { total: 0, interrupted: false }
    }

    /// What a turn of the loop does. Reading nothing is the end of the input;
    /// what was read is counted.
    pub fn step(&mut self, event: InputEvent) -> (r: InputAction)
        requires
            event matches InputEvent::Read(n) ==> old(self).total + n <= u64::MAX,
        ensures
            match event {
                InputEvent::Stop => r == InputAction::Finish && final(self).interrupted
                    && final(self).total == old(self).total,
                InputEvent::Read(n) => final(self).interrupted == old(self).interrupted && (
                if n == 0 {
                    r == InputAction::Finish && final(self).total == old(self).total
                } else {
                    r == InputAction::Append(n) && final(self).total == old(self).total + n
                }),
                InputEvent::Interrupted => r == InputAction::Again && *final(self) == *old(self),
                InputEvent::Failed => r == InputAction::Abort && *final(self) == *old(self),
            },
            r is Append <==> event is Read && event->Read_0 > 0,
            final(self).total == old(self).total
                + (if r is Append { r->Append_0 as int } else { 0 }),
            r is Abort <==> event is Failed,
            r is Again <==> event is Interrupted,
    {
        match event {
            InputEvent::Stop => {
                self.interrupted = true;
                InputAction::Finish
            },
            InputEvent::Read(n) => {
                if n == 0 {
                    InputAction::Finish
                } else {
                    self.total = self.total + n as u64;
                    InputAction::Append(n)
                }
            },
            InputEvent::Interrupted => InputAction::Again,
            InputEvent::Failed => InputAction::Abort,
        }
    }

    /// What is said at the end.
    pub fn summary(&self, name: &str) -> (r: String)
        ensures
            r@ == "timberfs: appended "@ + decimal(self.total as nat) + " bytes to "@ + name@
                + " ("@ + (if self.interrupted {
                "stopped by signal, flushed"@
            } else {
                "end of input"@
            }) + ")"@,
    {
        text("timberfs: appended ").concat(number_text(self.total).as_str()).concat(
            " bytes to ",
        ).concat(name).concat(" (").concat(
            if self.interrupted {
                "stopped by signal, flushed"
            } else {
                "end of input"
            },
        ).concat(")")
    }
}

/// A policy that cannot be read is never taken for no policy: the last good
/// one stays, however often the manifest changes without being readable, and
/// the first manifest that can be read replaces it.
pub proof fn the_last_good_policy_stays(last: Retention, reads: Seq<Result<Retention, String>>)
    ensures
        (forall|i: int| 0 <= i < reads.len() ==> (#[trigger] reads[i]) is Err) ==> after_reads(
            last,
            reads,
        ) == last,
        reads.len() > 0 && reads.last() is Ok ==> after_reads(last, reads)
            == reads.last()->Ok_0,
    decreases reads.len(),
{
    if reads.len() > 0 {
        the_last_good_policy_stays(last, reads.drop_last());
        if forall|i: int| 0 <= i < reads.len() ==> (#[trigger] reads[i]) is Err {
            assert forall|i: int| 0 <= i < reads.drop_last().len() implies (
            #[trigger] reads.drop_last()[i]) is Err by {
                assert(reads[i] is Err);
            }
            assert(reads[reads.len() - 1] is Err);
        }
    }
}

/// The policy in force after a manifest was read so many times, changed each
/// time.
pub open spec fn after_reads(last: Retention, reads: Seq<Result<Retention, String>>) -> Retention
    decreases reads.len(),
{
    if reads.len() == 0 {
        last
    } else {
        match reads.last() {
            Ok(p) => p,
            Err(_) => after_reads(last, reads.drop_last()),
        }
    }
}

} // verus!
