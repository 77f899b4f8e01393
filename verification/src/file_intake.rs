//! The file intake: a named set of a system's log files, tailed into a store
//! each, by one process.
//!
//! The producer keeps writing its own files and the intake reads them, so
//! nothing in its write path depends on this. A system rarely has one log, and
//! stating the retention policy for a system once is the point of a set.
//!
//! A line that cannot be used is fatal: a source that was skipped is a log
//! nobody is collecting and nothing later says so. An intake has a startup to
//! fail at, and this is what it is for.

use crate::append::{duration_ms, parse_duration_ms, MeasureError};
use crate::measure::Amount;
use crate::paths::{absolute, is_absolute, join, joined_path, same_path, same_paths};
use crate::text::{
    char_texts, chars_of, copy_texts, debug_char, debug_text, decimal, is_space, lines, lines_of,
    number_text, quoted, quoted_char, same, space, spells, split_at_char, split_once, strip_suffix,
    text, text_of, texts, trim, trimmed, without_suffix, words, words_of,
};
use vstd::prelude::*;
use vstd::slice::slice_subrange;
use vstd::string::StringExecFns;

verus! {

/// Where a set's declaration lives, under the configuration directory.
pub const CONF_DIR: &'static str = "file.d";

pub const DEFAULT_POLL_MS: u64 = 1_000;

pub const DEFAULT_FLUSH_AGE_MS: u64 = 60_000;

/// One source in a set, and what it becomes.
#[derive(Debug, Clone, PartialEq, Eq)]
pub struct Entry {
    /// The section name, which is the store's name and its handle.
    pub store: String,
    pub source: String,
    pub store_dir: String,
    /// `KEY=VALUE` declarations, in the order written.
    pub declare: Vec<String>,
    /// How often to look for new data and for a replaced file.
    pub poll_ms: u64,
    /// How long followed data may sit unflushed: a visibility knob, not a
    /// durability one, as the source file is the durable copy.
    pub flush_age_ms: u64,
    /// Where rotation moves the source, for data written while this was not
    /// running. Empty means the derived defaults.
    pub rotated: Vec<String>,
}

/// What an entry is.
pub struct EntryModel {
    pub store: Seq<char>,
    pub source: Seq<char>,
    pub store_dir: Seq<char>,
    pub declare: Seq<Seq<char>>,
    pub poll_ms: u64,
    pub flush_age_ms: u64,
    pub rotated: Seq<Seq<char>>,
}

impl View for Entry {
    type V = EntryModel;

    open spec fn view(&self) -> EntryModel {
        EntryModel {
            store: self.store@,
            source: self.source@,
            store_dir: self.store_dir@,
            declare: texts(self.declare@),
            poll_ms: self.poll_ms,
            flush_age_ms: self.flush_age_ms,
            rotated: texts(self.rotated@),
        }
    }
}

impl Entry {
    /// `<store_dir>/<store>/<store>.log`: the layout every intake writes,
    /// where the path spells what the store is and never how the data got in.
    pub fn dest(&self) -> (r: String)
        ensures
            r@ == join(join(self.store_dir@, self.store@), self.store@ + ".log"@),
    {
        let dir = joined_path(self.store_dir.as_str(), self.store.as_str());
        let file = text(self.store.as_str()).concat(".log");
        joined_path(dir.as_str(), file.as_str())
    }
}

#[derive(Debug, Clone, PartialEq, Eq)]
pub struct FileSet {
    pub name: String,
    pub entries: Vec<Entry>,
}

/// What a list of entries is.
pub open spec fn entry_models(v: Seq<Entry>) -> Seq<EntryModel> {
    Seq::new(v.len(), |i: int| v[i]@)
}

/// How the set is run, as opposed to what it declares.
#[derive(Debug, Clone)]
pub struct RunOpts {
    /// Exit when this binary is replaced on disk, so a supervised run re-execs
    /// into the new one.
    pub exit_on_upgrade: bool,
    /// Declare and converge, then exit without tailing anything.
    pub check_only: bool,
}

// ------------------------------------------------------------------- errors

/// Why a declaration is refused, with the line that did it.
#[allow(inconsistent_fields)]
#[derive(Debug, Clone, PartialEq, Eq)]
pub enum IntakeError {
    UnclosedHeader { line: usize, got: String },
    EmptyName { line: usize },
    HiddenName { line: usize, name: String },
    BadName { line: usize, name: String, bad: char },
    Redeclared { line: usize, store: String, first: usize },
    NoSource { store: String, at: usize },
    SharedSource { store: String, other: String, source: String },
    NotADeclaration { line: usize, got: String },
    UnknownKey { line: usize, key: String },
    BadDuration { line: usize, key: &'static str, value: String, cause: MeasureError },
    RelativeRotated { line: usize, word: String },
    SourceInPreamble { line: usize },
    RelativeSource { line: usize, value: String },
    Nothing,
}

/// What an intake error is.
pub enum Problem {
    UnclosedHeader { line: nat, got: Seq<char> },
    EmptyName { line: nat },
    HiddenName { line: nat, name: Seq<char> },
    BadName { line: nat, name: Seq<char>, bad: char },
    Redeclared { line: nat, store: Seq<char>, first: nat },
    NoSource { store: Seq<char>, at: nat },
    SharedSource { store: Seq<char>, other: Seq<char>, source: Seq<char> },
    NotADeclaration { line: nat, got: Seq<char> },
    UnknownKey { line: nat, key: Seq<char> },
    BadDuration { line: nat, key: Seq<char>, value: Seq<char>, cause: Amount },
    RelativeRotated { line: nat, word: Seq<char> },
    SourceInPreamble { line: nat },
    RelativeSource { line: nat, value: Seq<char> },
    Nothing,
}

/// What a duration came to that is none.
pub open spec fn cause_of(e: MeasureError) -> Amount {
    match e {
        MeasureError::DurationOutOfRange(_) => Amount::OutOfRange,
        MeasureError::SizeOutOfRange(_) => Amount::OutOfRange,
        _ => Amount::Unrecognized,
    }
}

impl View for IntakeError {
    type V = Problem;

    open spec fn view(&self) -> Problem {
        match *self {
            IntakeError::UnclosedHeader { line, got } => Problem::UnclosedHeader {
                line: line as nat,
                got: got@,
            },
            IntakeError::EmptyName { line } => Problem::EmptyName { line: line as nat },
            IntakeError::HiddenName { line, name } => Problem::HiddenName {
                line: line as nat,
                name: name@,
            },
            IntakeError::BadName { line, name, bad } => Problem::BadName {
                line: line as nat,
                name: name@,
                bad,
            },
            IntakeError::Redeclared { line, store, first } => Problem::Redeclared {
                line: line as nat,
                store: store@,
                first: first as nat,
            },
            IntakeError::NoSource { store, at } => Problem::NoSource {
                store: store@,
                at: at as nat,
            },
            IntakeError::SharedSource { store, other, source } => Problem::SharedSource {
                store: store@,
                other: other@,
                source: source@,
            },
            IntakeError::NotADeclaration { line, got } => Problem::NotADeclaration {
                line: line as nat,
                got: got@,
            },
            IntakeError::UnknownKey { line, key } => Problem::UnknownKey {
                line: line as nat,
                key: key@,
            },
            IntakeError::BadDuration { line, key, value, cause } => Problem::BadDuration {
                line: line as nat,
                key: key@,
                value: value@,
                cause: cause_of(cause),
            },
            IntakeError::RelativeRotated { line, word } => Problem::RelativeRotated {
                line: line as nat,
                word: word@,
            },
            IntakeError::SourceInPreamble { line } => Problem::SourceInPreamble {
                line: line as nat,
            },
            IntakeError::RelativeSource { line, value } => Problem::RelativeSource {
                line: line as nat,
                value: value@,
            },
            IntakeError::Nothing => Problem::Nothing,
        }
    }
}

/// "line N: ".
pub open spec fn on_line(line: nat) -> Seq<char> {
    "line "@ + decimal(line) + ": "@
}

fn line_text(line: usize) -> (r: String)
    ensures
        r@ == on_line(line as nat),
{
    text("line ").concat(number_text(line as u64).as_str()).concat(": ")
}

impl IntakeError {
    /// What the error says: which line, which section, and why.
    pub open spec fn said(self) -> Seq<char> {
        match self {
            IntakeError::UnclosedHeader { line, got } => on_line(line as nat)
                + "a section header ends with ']' — got "@ + quoted(got@),
            IntakeError::EmptyName { line } => on_line(line as nat)
                + "a section needs a name — it becomes the store's name"@,
            IntakeError::HiddenName { line, name } => on_line(line as nat) + "["@ + name@
                + "] cannot name a store: a leading dot hides the directory"@,
            IntakeError::BadName { line, name, bad } => on_line(line as nat) + "["@ + name@
                + "] cannot name a store: "@ + quoted_char(bad) + " is not allowed in a handle"@,
            IntakeError::Redeclared { line, store, first } => on_line(line as nat) + "["@ + store@
                + "] was already declared on line "@ + decimal(first as nat)
                + " — a store is named once"@,
            IntakeError::NoSource { store, at } => "["@ + store@ + "] (line "@ + decimal(
                at as nat,
            ) + ") declares no SOURCE, and there is no sane default"@,
            IntakeError::SharedSource { store, other, source } => "["@ + store@ + "] and ["@
                + other@ + "] both follow "@ + source@
                + " — one file into two stores doubles the work and the data"@,
            IntakeError::NotADeclaration { line, got } => on_line(line as nat)
                + "expected KEY=VALUE or [section] — got "@ + quoted(got@),
            IntakeError::UnknownKey { line, key } => on_line(line as nat) + "unknown key "@
                + quoted(key@)
                + " — this build reads STORE_DIR, DECLARE, SOURCE, POLL, FLUSH_AGE, ROTATED"@,
            IntakeError::BadDuration { line, key, value, cause } => on_line(line as nat) + key@
                + "="@ + value@ + ": "@ + cause.said(),
            IntakeError::RelativeRotated { line, word } => on_line(line as nat) + "ROTATED "@
                + word@ + " must be an absolute path"@,
            IntakeError::SourceInPreamble { line } => on_line(line as nat)
                + "SOURCE belongs to a section — it is what ONE store follows, and a set has no single one"@,
            IntakeError::RelativeSource { line, value } => on_line(line as nat) + "SOURCE="@
                + value@
                + " must be an absolute path — an intake has no working directory for a relative one to mean anything"@,
            IntakeError::Nothing =>
                "no [section] declares a source, so this set would follow nothing"@,
        }
    }

    /// What the error says: which line, which section, and why.
    pub fn message(&self) -> (r: String)
        ensures
            r@ == self.said(),
    {
        match self {
            IntakeError::UnclosedHeader { line, got } => line_text(*line).concat(
                "a section header ends with ']' — got ",
            ).concat(debug_text(got.as_str()).as_str()),
            IntakeError::EmptyName { line } => line_text(*line).concat(
                "a section needs a name — it becomes the store's name",
            ),
            IntakeError::HiddenName { line, name } => line_text(*line).concat("[").concat(
                name.as_str(),
            ).concat("] cannot name a store: a leading dot hides the directory"),
            IntakeError::BadName { line, name, bad } => line_text(*line).concat("[").concat(
                name.as_str(),
            ).concat("] cannot name a store: ").concat(debug_char(*bad).as_str()).concat(
                " is not allowed in a handle",
            ),
            IntakeError::Redeclared { line, store, first } => line_text(*line).concat("[").concat(
                store.as_str(),
            ).concat("] was already declared on line ").concat(
                number_text(*first as u64).as_str(),
            ).concat(" — a store is named once"),
            IntakeError::NoSource { store, at } => text("[").concat(store.as_str()).concat(
                "] (line ",
            ).concat(number_text(*at as u64).as_str()).concat(
                ") declares no SOURCE, and there is no sane default",
            ),
            IntakeError::SharedSource { store, other, source } => text("[").concat(
                store.as_str(),
            ).concat("] and [").concat(other.as_str()).concat("] both follow ").concat(
                source.as_str(),
            ).concat(" — one file into two stores doubles the work and the data"),
            IntakeError::NotADeclaration { line, got } => line_text(*line).concat(
                "expected KEY=VALUE or [section] — got ",
            ).concat(debug_text(got.as_str()).as_str()),
            IntakeError::UnknownKey { line, key } => line_text(*line).concat(
                "unknown key ",
            ).concat(debug_text(key.as_str()).as_str()).concat(
                " — this build reads STORE_DIR, DECLARE, SOURCE, POLL, FLUSH_AGE, ROTATED",
            ),
            IntakeError::BadDuration { line, key, value, cause } => line_text(*line).concat(
                key,
            ).concat("=").concat(value.as_str()).concat(": ").concat(cause.message().as_str()),
            IntakeError::RelativeRotated { line, word } => line_text(*line).concat(
                "ROTATED ",
            ).concat(word.as_str()).concat(" must be an absolute path"),
            IntakeError::SourceInPreamble { line } => line_text(*line).concat(
                "SOURCE belongs to a section — it is what ONE store follows, and a set has no single one",
            ),
            IntakeError::RelativeSource { line, value } => line_text(*line).concat(
                "SOURCE=",
            ).concat(value.as_str()).concat(
                " must be an absolute path — an intake has no working directory for a relative one to mean anything",
            ),
            IntakeError::Nothing => text(
                "no [section] declares a source, so this set would follow nothing",
            ),
        }
    }
}

// ------------------------------------------------------------------ parsing

/// What the preamble declares, or a section: each key stated or not.
pub struct SettingsModel {
    pub dir: Option<Seq<char>>,
    pub declare: Option<Seq<Seq<char>>>,
    pub poll_ms: Option<u64>,
    pub flush_age_ms: Option<u64>,
    pub rotated: Option<Seq<Seq<char>>>,
}

/// A section being read.
pub struct SectionModel {
    pub store: Seq<char>,
    pub at: nat,
    pub source: Option<Seq<char>>,
    pub own: SettingsModel,
}

/// What has been read: the preamble, the section under way, the entries that
/// are complete, and the line that each section was declared on.
pub struct ReadModel {
    pub defaults: SettingsModel,
    pub open: Option<SectionModel>,
    pub entries: Seq<EntryModel>,
    pub named: Seq<(Seq<char>, nat)>,
}

pub open spec fn nothing_stated() -> SettingsModel {
    SettingsModel { dir: None, declare: None, poll_ms: None, flush_age_ms: None, rotated: None }
}

pub open spec fn or_else<T>(own: Option<T>, default: Option<T>, built_in: T) -> T {
    match own {
        Some(v) => v,
        None => match default {
            Some(v) => v,
            None => built_in,
        },
    }
}

/// The entry that a section makes: what it states replaces the preamble
/// wholly, key by key, and what neither states is built in.
pub open spec fn entry_of(s: SectionModel, source: Seq<char>, d: SettingsModel) -> EntryModel {
    EntryModel {
        store: s.store,
        source,
        store_dir: or_else(s.own.dir, d.dir, "/var/log/timberfs"@),
        declare: or_else(s.own.declare, d.declare, Seq::empty()),
        poll_ms: or_else(s.own.poll_ms, d.poll_ms, DEFAULT_POLL_MS),
        flush_age_ms: or_else(s.own.flush_age_ms, d.flush_age_ms, DEFAULT_FLUSH_AGE_MS),
        rotated: or_else(s.own.rotated, d.rotated, Seq::empty()),
    }
}

/// The first of the first `n` entries that follows `source`; `n` where none does.
pub open spec fn first_follower(entries: Seq<EntryModel>, source: Seq<char>, n: int) -> int
    decreases n,
{
    if n <= 0 {
        0
    } else {
        let k = first_follower(entries, source, n - 1);
        if k < n - 1 || same_path(entries[n - 1].source, source) {
            k
        } else {
            n
        }
    }
}

/// The entries once the section under way is filed: it needs a source, and
/// one that no other section follows.
pub open spec fn filed(
    entries: Seq<EntryModel>,
    s: SectionModel,
    d: SettingsModel,
) -> Result<Seq<EntryModel>, Problem> {
    match s.source {
        None => Err(Problem::NoSource { store: s.store, at: s.at }),
        Some(source) => {
            let k = first_follower(entries, source, entries.len() as int);
            if k < entries.len() {
                Err(Problem::SharedSource { store: s.store, other: entries[k].store, source })
            } else {
                Ok(entries.push(entry_of(s, source, d)))
            }
        },
    }
}

/// Whether a character cannot stand in a handle.
pub open spec fn bad_in_name(c: char) -> bool {
    is_space(c) || c == '/' || c == '\0'
}

/// The first of a name's characters that cannot stand in a handle; its length
/// where all can.
pub open spec fn first_bad(name: Seq<char>) -> int
    decreases name.len(),
{
    if name.len() == 0 || bad_in_name(name[0]) {
        0
    } else {
        1 + first_bad(name.drop_first())
    }
}

/// Why a section name cannot name a store. It becomes a directory, a file
/// name and a handle an operator types, so it is validated rather than
/// sanitized.
pub open spec fn name_problem(name: Seq<char>, line: nat) -> Option<Problem> {
    if name.len() == 0 {
        Some(Problem::EmptyName { line })
    } else if name[0] == '.' {
        Some(Problem::HiddenName { line, name })
    } else if first_bad(name) < name.len() {
        Some(Problem::BadName { line, name, bad: name[first_bad(name)] })
    } else {
        None
    }
}

/// The first of the names that is `name`; how many there are where none is.
pub open spec fn first_named(named: Seq<(Seq<char>, nat)>, name: Seq<char>) -> int
    decreases named.len(),
{
    if named.len() == 0 || named[0].0 == name {
        0
    } else {
        1 + first_named(named.drop_first(), name)
    }
}

/// What a section header does.
pub open spec fn header_step(st: ReadModel, line: nat, s: Seq<char>) -> Result<
    ReadModel,
    Problem,
> {
    match strip_suffix(s.drop_first(), "]"@) {
        None => Err(Problem::UnclosedHeader { line, got: s }),
        Some(inner) => {
            let store = trim(inner);
            let k = first_named(st.named, store);
            if name_problem(store, line) is Some {
                Err(name_problem(store, line)->Some_0)
            } else if k < st.named.len() {
                Err(Problem::Redeclared { line, store, first: st.named[k].1 })
            } else {
                let closed = match st.open {
                    Some(prev) => filed(st.entries, prev, st.defaults),
                    None => Ok(st.entries),
                };
                match closed {
                    Err(e) => Err(e),
                    Ok(entries) => Ok(
                        ReadModel {
                            defaults: st.defaults,
                            open: Some(
                                SectionModel {
                                    store,
                                    at: line,
                                    source: None,
                                    own: nothing_stated(),
                                },
                            ),
                            entries,
                            named: st.named.push((store, line)),
                        },
                    ),
                }
            }
        },
    }
}

/// The first of the words that is not an absolute path; how many there are
/// where all are.
pub open spec fn first_relative(ws: Seq<Seq<char>>) -> int
    decreases ws.len(),
{
    if ws.len() == 0 || !is_absolute(ws[0]) {
        0
    } else {
        1 + first_relative(ws.drop_first())
    }
}

pub open spec fn is_setting(key: Seq<char>) -> bool {
    key == "STORE_DIR"@ || key == "DECLARE"@ || key == "POLL"@ || key == "FLUSH_AGE"@ || key
        == "ROTATED"@
}

/// What stating a key does to the settings that it belongs to.
pub open spec fn stated(o: SettingsModel, line: nat, key: Seq<char>, value: Seq<char>) -> Result<
    SettingsModel,
    Problem,
> {
    if key == "STORE_DIR"@ {
        Ok(SettingsModel { dir: Some(value), ..o })
    } else if key == "DECLARE"@ {
        Ok(SettingsModel { declare: Some(words(value)), ..o })
    } else if key == "POLL"@ {
        match duration_ms(value) {
            Amount::Value(ms) => Ok(SettingsModel { poll_ms: Some(ms), ..o }),
            cause => Err(Problem::BadDuration { line, key, value, cause }),
        }
    } else if key == "FLUSH_AGE"@ {
        match duration_ms(value) {
            Amount::Value(ms) => Ok(SettingsModel { flush_age_ms: Some(ms), ..o }),
            cause => Err(Problem::BadDuration { line, key, value, cause }),
        }
    } else {
        let ws = words(value);
        if first_relative(ws) < ws.len() {
            Err(Problem::RelativeRotated { line, word: ws[first_relative(ws)] })
        } else {
            Ok(SettingsModel { rotated: Some(ws), ..o })
        }
    }
}

/// What a `KEY=VALUE` line does.
pub open spec fn key_step(st: ReadModel, line: nat, s: Seq<char>) -> Result<ReadModel, Problem> {
    match split_once(s, '=') {
        None => Err(Problem::NotADeclaration { line, got: s }),
        Some((left, right)) => {
            let key = trim(left);
            let value = trim(right);
            if key != "SOURCE"@ && !is_setting(key) {
                Err(Problem::UnknownKey { line, key })
            } else {
                match st.open {
                    None => if key == "SOURCE"@ {
                        Err(Problem::SourceInPreamble { line })
                    } else {
                        match stated(st.defaults, line, key, value) {
                            Err(e) => Err(e),
                            Ok(defaults) => Ok(ReadModel { defaults, ..st }),
                        }
                    },
                    Some(section) => if key == "SOURCE"@ {
                        if !is_absolute(value) {
                            Err(Problem::RelativeSource { line, value })
                        } else {
                            Ok(
                                ReadModel {
                                    open: Some(SectionModel { source: Some(value), ..section }),
                                    ..st
                                },
                            )
                        }
                    } else {
                        match stated(section.own, line, key, value) {
                            Err(e) => Err(e),
                            Ok(own) => Ok(
                                ReadModel { open: Some(SectionModel { own, ..section }), ..st },
                            ),
                        }
                    },
                }
            }
        },
    }
}

/// What a line does.
pub open spec fn line_step(st: ReadModel, line: nat, raw: Seq<char>) -> Result<
    ReadModel,
    Problem,
> {
    let s = trim(raw);
    if s.len() == 0 || s[0] == '#' {
        Ok(st)
    } else if s[0] == '[' {
        header_step(st, line, s)
    } else {
        key_step(st, line, s)
    }
}

pub open spec fn nothing_read() -> ReadModel {
    ReadModel {
        defaults: nothing_stated(),
        open: None,
        entries: Seq::empty(),
        named: Seq::empty(),
    }
}

/// What the first `n` lines say.
pub open spec fn read_lines(ls: Seq<Seq<char>>, n: nat) -> Result<ReadModel, Problem>
    decreases n,
{
    if n == 0 {
        Ok(nothing_read())
    } else {
        match read_lines(ls, (n - 1) as nat) {
            Err(e) => Err(e),
            Ok(st) => line_step(st, n, ls[n - 1]),
        }
    }
}

/// The entries that a set's declaration makes, or why it is refused.
pub open spec fn declared(s: Seq<char>) -> Result<Seq<EntryModel>, Problem> {
    let ls = lines(s);
    match read_lines(ls, ls.len()) {
        Err(e) => Err(e),
        Ok(st) => {
            let closed = match st.open {
                Some(last) => filed(st.entries, last, st.defaults),
                None => Ok(st.entries),
            };
            match closed {
                Err(e) => Err(e),
                Ok(entries) => if entries.len() == 0 {
                    Err(Problem::Nothing)
                } else {
                    Ok(entries)
                },
            }
        },
    }
}

proof fn lemma_error_stands(ls: Seq<Seq<char>>, n: nat, m: nat)
    requires
        n <= m,
        read_lines(ls, n) is Err,
    ensures
        read_lines(ls, m) == read_lines(ls, n),
    decreases m,
{
    if n < m {
        lemma_error_stands(ls, n, (m - 1) as nat);
    }
}

struct Settings {
    dir: Option<String>,
    declare: Option<Vec<String>>,
    poll_ms: Option<u64>,
    flush_age_ms: Option<u64>,
    rotated: Option<Vec<String>>,
}

spec fn opt_text(o: Option<String>) -> Option<Seq<char>> {
    match o {
        Some(s) => Some(s@),
        None => None,
    }
}

spec fn opt_texts(o: Option<Vec<String>>) -> Option<Seq<Seq<char>>> {
    match o {
        Some(v) => Some(texts(v@)),
        None => None,
    }
}

impl View for Settings {
    type V = SettingsModel;

    closed spec fn view(&self) -> SettingsModel {
        SettingsModel {
            dir: opt_text(self.dir),
            declare: opt_texts(self.declare),
            poll_ms: self.poll_ms,
            flush_age_ms: self.flush_age_ms,
            rotated: opt_texts(self.rotated),
        }
    }
}

impl Settings {
    fn none() -> (r: Settings)
        ensures
            r@ == nothing_stated(),
    {
        Settings { dir: None, declare: None, poll_ms: None, flush_age_ms: None, rotated: None }
    }

    /// States one key.
    fn state(&mut self, line: usize, key: &[char], value: &[char]) -> (r: Result<(), IntakeError>)
        requires
            is_setting(key@),
        ensures
            match r {
                Ok(_) => stated(old(self)@, line as nat, key@, value@) == Ok::<
                    SettingsModel,
                    Problem,
                >(final(self)@),
                Err(e) => stated(old(self)@, line as nat, key@, value@) == Err::<
                    SettingsModel,
                    Problem,
                >(e@),
            },
    {
        if spells(key, "STORE_DIR") {
            self.dir = Some(text_of(value));
        } else if spells(key, "DECLARE") {
            self.declare = Some(words_of(value));
        } else if spells(key, "POLL") {
            match duration(line, "POLL", value) {
                Ok(ms) => self.poll_ms = Some(ms),
                Err(e) => return Err(e),
            }
        } else if spells(key, "FLUSH_AGE") {
            match duration(line, "FLUSH_AGE", value) {
                Ok(ms) => self.flush_age_ms = Some(ms),
                Err(e) => return Err(e),
            }
        } else {
            let ws = words_of(value);
            let k: usize = relative_word(&ws);
            if k < ws.len() {
                return Err(IntakeError::RelativeRotated { line, word: text(ws[k].as_str()) });
            }
            self.rotated = Some(ws);
        }
        Ok(())
    }
}

/// A duration, parsed here, so that a bad one is a startup failure naming its
/// line rather than a tail that dies later.
fn duration(line: usize, key: &'static str, value: &[char]) -> (r: Result<u64, IntakeError>)
    ensures
        match r {
            Ok(ms) => duration_ms(value@) == Amount::Value(ms),
            Err(e) => !(duration_ms(value@) is Value) && e@ == (Problem::BadDuration {
                line: line as nat,
                key: key@,
                value: value@,
                cause: duration_ms(value@),
            }),
        },
{
    let value = text_of(value);
    match parse_duration_ms(value.as_str()) {
        Ok(ms) => Ok(ms),
        Err(cause) => Err(IntakeError::BadDuration { line, key, value, cause }),
    }
}

proof fn lemma_first_relative(ws: Seq<Seq<char>>, k: int)
    requires
        0 <= k <= ws.len(),
        forall|i: int| 0 <= i < k ==> is_absolute(#[trigger] ws[i]),
        k < ws.len() ==> !is_absolute(ws[k]),
    ensures
        first_relative(ws) == k,
    decreases k,
{
    if k > 0 {
        let t = ws.drop_first();
        assert(is_absolute(ws[0]));
        assert forall|i: int| 0 <= i < k - 1 implies is_absolute(#[trigger] t[i]) by {
            assert(t[i] == ws[i + 1]);
        }
        lemma_first_relative(t, k - 1);
    }
}

fn relative_word(ws: &Vec<String>) -> (k: usize)
    ensures
        k == first_relative(texts(ws@)),
        k <= ws@.len(),
{
    let mut k: usize = 0;
    while k < ws.len() && absolute(ws[k].as_str())
        invariant
            k <= ws@.len(),
            forall|i: int| 0 <= i < k ==> is_absolute(#[trigger] ws@[i]@),
        decreases ws@.len() - k,
    {
        k = k + 1;
    }
    proof {
        assert forall|i: int| 0 <= i < k implies is_absolute(#[trigger] texts(ws@)[i]) by {
            assert(is_absolute(ws@[i]@));
        }
        lemma_first_relative(texts(ws@), k as int);
    }
    k
}

/// A section being read. Each field is `None` until the section states it,
/// which is what lets a section fall back to the preamble per key.
struct Section {
    store: String,
    at: usize,
    source: Option<String>,
    own: Settings,
}

impl View for Section {
    type V = SectionModel;

    closed spec fn view(&self) -> SectionModel {
        SectionModel {
            store: self.store@,
            at: self.at as nat,
            source: opt_text(self.source),
            own: self.own@,
        }
    }
}

fn text_or(own: &Option<String>, default: &Option<String>, built_in: &str) -> (r: String)
    ensures
        r@ == or_else(opt_text(*own), opt_text(*default), built_in@),
{
    match own {
        Some(s) => text(s.as_str()),
        None => match default {
            Some(s) => text(s.as_str()),
            None => text(built_in),
        },
    }
}

fn texts_or(own: &Option<Vec<String>>, default: &Option<Vec<String>>) -> (r: Vec<String>)
    ensures
        texts(r@) == or_else(opt_texts(*own), opt_texts(*default), Seq::empty()),
{
    match own {
        Some(v) => copy_texts(v),
        None => match default {
            Some(v) => copy_texts(v),
            None => {
                let r: Vec<String> = Vec::new();
                assert(texts(r@) =~= Seq::empty());
                r
            },
        },
    }
}

fn ms_or(own: Option<u64>, default: Option<u64>, built_in: u64) -> (r: u64)
    ensures
        r == or_else(own, default, built_in),
{
    match own {
        Some(ms) => ms,
        None => match default {
            Some(ms) => ms,
            None => built_in,
        },
    }
}

proof fn lemma_first_follower(entries: Seq<EntryModel>, source: Seq<char>, n: int, k: int)
    requires
        0 <= k <= n <= entries.len(),
        forall|i: int| 0 <= i < k ==> !same_path(#[trigger] entries[i].source, source),
        k < n ==> same_path(entries[k].source, source),
    ensures
        first_follower(entries, source, n) == k,
    decreases n,
{
    if n > 0 {
        if k < n {
            if k < n - 1 {
                lemma_first_follower(entries, source, n - 1, k);
            } else {
                lemma_first_follower(entries, source, n - 1, k);
            }
        } else {
            lemma_first_follower(entries, source, n - 1, n - 1);
            assert(!same_path(entries[n - 1].source, source));
        }
    }
}

/// Resolve a finished section and file it, refusing a source two sections
/// share: one file into two stores doubles the reading and the bytes, and is
/// a copied section somebody forgot to edit.
fn file_section(open: Section, defaults: &Settings, entries: &mut Vec<Entry>) -> (r: Result<
    (),
    IntakeError,
>)
    ensures
        match r {
            Ok(_) => filed(entry_models(old(entries)@), open@, defaults@) == Ok::<
                Seq<EntryModel>,
                Problem,
            >(entry_models(final(entries)@)),
            Err(e) => filed(entry_models(old(entries)@), open@, defaults@) == Err::<
                Seq<EntryModel>,
                Problem,
            >(e@),
        },
{
    let source = match open.source {
        None => return Err(IntakeError::NoSource { store: open.store, at: open.at }),
        Some(source) => source,
    };
    let ghost models = entry_models(entries@);
    let mut k: usize = 0;
    while k < entries.len() && !same_paths(entries[k].source.as_str(), source.as_str())
        invariant
            k <= entries@.len(),
            models == entry_models(entries@),
            forall|i: int| 0 <= i < k ==> !same_path(#[trigger] models[i].source, source@),
        decreases entries@.len() - k,
    {
        assert(!same_path(models[k as int].source, source@));
        k = k + 1;
    }
    proof {
        lemma_first_follower(models, source@, models.len() as int, k as int);
    }
    if k < entries.len() {
        return Err(
            IntakeError::SharedSource {
                store: open.store,
                other: text(entries[k].store.as_str()),
                source,
            },
        );
    }
    let entry = Entry {
        store_dir: text_or(&open.own.dir, &defaults.dir, "/var/log/timberfs"),
        declare: texts_or(&open.own.declare, &defaults.declare),
        poll_ms: ms_or(open.own.poll_ms, defaults.poll_ms, DEFAULT_POLL_MS),
        flush_age_ms: ms_or(open.own.flush_age_ms, defaults.flush_age_ms, DEFAULT_FLUSH_AGE_MS),
        rotated: texts_or(&open.own.rotated, &defaults.rotated),
        store: open.store,
        source,
    };
    entries.push(entry);
    assert(entry_models(entries@) =~= models.push(entry@));
    Ok(())
}

proof fn lemma_first_bad(name: Seq<char>, k: int)
    requires
        0 <= k <= name.len(),
        forall|i: int| 0 <= i < k ==> !bad_in_name(#[trigger] name[i]),
        k < name.len() ==> bad_in_name(name[k]),
    ensures
        first_bad(name) == k,
    decreases k,
{
    if k > 0 {
        let t = name.drop_first();
        assert(!bad_in_name(name[0]));
        assert forall|i: int| 0 <= i < k - 1 implies !bad_in_name(#[trigger] t[i]) by {
            assert(t[i] == name[i + 1]);
        }
        lemma_first_bad(t, k - 1);
    }
}

/// Why a section name cannot name a store.
fn check_store_name(name: &[char], line: usize) -> (r: Result<(), IntakeError>)
    ensures
        match r {
            Ok(_) => name_problem(name@, line as nat) is None,
            Err(e) => name_problem(name@, line as nat) == Some(e@),
        },
{
    if name.len() == 0 {
        return Err(IntakeError::EmptyName { line });
    }
    if name[0] == '.' {
        return Err(IntakeError::HiddenName { line, name: text_of(name) });
    }
    let mut k: usize = 0;
    while k < name.len() && !(space(name[k]) || name[k] == '/' || name[k] == '\0')
        invariant
            k <= name@.len(),
            forall|i: int| 0 <= i < k ==> !bad_in_name(#[trigger] name@[i]),
        decreases name@.len() - k,
    {
        k = k + 1;
    }
    proof {
        lemma_first_bad(name@, k as int);
    }
    if k < name.len() {
        return Err(IntakeError::BadName { line, name: text_of(name), bad: name[k] });
    }
    Ok(())
}

/// The line that each section was declared on.
struct Named {
    store: String,
    line: usize,
}

spec fn named_models(v: Seq<Named>) -> Seq<(Seq<char>, nat)> {
    Seq::new(v.len(), |i: int| (v[i].store@, v[i].line as nat))
}

proof fn lemma_first_named(named: Seq<(Seq<char>, nat)>, name: Seq<char>, k: int)
    requires
        0 <= k <= named.len(),
        forall|i: int| 0 <= i < k ==> (#[trigger] named[i]).0 != name,
        k < named.len() ==> named[k].0 == name,
    ensures
        first_named(named, name) == k,
    decreases k,
{
    if k > 0 {
        let t = named.drop_first();
        assert(named[0].0 != name);
        assert forall|i: int| 0 <= i < k - 1 implies (#[trigger] t[i]).0 != name by {
            assert(t[i] == named[i + 1]);
        }
        lemma_first_named(t, name, k - 1);
    }
}

fn declared_at(named: &Vec<Named>, store: &str) -> (k: usize)
    ensures
        k == first_named(named_models(named@), store@),
        k <= named@.len(),
{
    let ghost models = named_models(named@);
    let mut k: usize = 0;
    while k < named.len() && !same(named[k].store.as_str(), store)
        invariant
            k <= named@.len(),
            models == named_models(named@),
            forall|i: int| 0 <= i < k ==> (#[trigger] models[i]).0 != store@,
        decreases named@.len() - k,
    {
        assert(models[k as int].0 != store@);
        k = k + 1;
    }
    proof {
        lemma_first_named(models, store@, k as int);
    }
    k
}

struct Reading {
    defaults: Settings,
    open: Option<Section>,
    entries: Vec<Entry>,
    named: Vec<Named>,
}

impl View for Reading {
    type V = ReadModel;

    closed spec fn view(&self) -> ReadModel {
        ReadModel {
            defaults: self.defaults@,
            open: match self.open {
                Some(s) => Some(s@),
                None => None,
            },
            entries: entry_models(self.entries@),
            named: named_models(self.named@),
        }
    }
}

impl Reading {
    fn header(&mut self, line: usize, s: &[char]) -> (r: Result<(), IntakeError>)
        requires
            s@.len() > 0,
        ensures
            match r {
                Ok(_) => header_step(old(self)@, line as nat, s@) == Ok::<ReadModel, Problem>(
                    final(self)@,
                ),
                Err(e) => header_step(old(self)@, line as nat, s@) == Err::<ReadModel, Problem>(
                    e@,
                ),
            },
    {
        let ghost st = self@;
        let head: &[char] = slice_subrange(s, 1, s.len());
        assert(head@ =~= s@.drop_first());
        let inner: &[char] = match without_suffix(head, "]") {
            Some(inner) => inner,
            None => return Err(IntakeError::UnclosedHeader { line, got: text_of(s) }),
        };
        let name: &[char] = trimmed(inner);
        if let Err(e) = check_store_name(name, line) {
            return Err(e);
        }
        let store = text_of(name);
        let k: usize = declared_at(&self.named, store.as_str());
        if k < self.named.len() {
            assert(st.named[k as int].1 == self.named@[k as int].line as nat);
            return Err(IntakeError::Redeclared { line, store, first: self.named[k].line });
        }
        if let Some(prev) = self.open.take() {
            if let Err(e) = file_section(prev, &self.defaults, &mut self.entries) {
                return Err(e);
            }
        }
        self.named.push(Named { store: text(store.as_str()), line });
        assert(named_models(self.named@) =~= st.named.push((store@, line as nat)));
        self.open = Some(Section { store, at: line, source: None, own: Settings::none() });
        Ok(())
    }

    fn key(&mut self, line: usize, s: &[char]) -> (r: Result<(), IntakeError>)
        ensures
            match r {
                Ok(_) => key_step(old(self)@, line as nat, s@) == Ok::<ReadModel, Problem>(
                    final(self)@,
                ),
                Err(e) => key_step(old(self)@, line as nat, s@) == Err::<ReadModel, Problem>(e@),
            },
    {
        let (left, right) = match split_at_char(s, '=') {
            Some(parts) => parts,
            None => return Err(IntakeError::NotADeclaration { line, got: text_of(s) }),
        };
        let key: &[char] = trimmed(left);
        let value: &[char] = trimmed(right);
        let source: bool = spells(key, "SOURCE");
        if !source && !(spells(key, "STORE_DIR") || spells(key, "DECLARE") || spells(key, "POLL")
            || spells(key, "FLUSH_AGE") || spells(key, "ROTATED")) {
            return Err(IntakeError::UnknownKey { line, key: text_of(key) });
        }
        match self.open.take() {
            // The preamble: everything but a source, which belongs to the
            // store that follows it.
            None => {
                if source {
                    return Err(IntakeError::SourceInPreamble { line });
                }
                if let Err(e) = self.defaults.state(line, key, value) {
                    return Err(e);
                }
            },
            Some(section) => {
                let mut section = section;
                if source {
                    let value = text_of(value);
                    if !absolute(value.as_str()) {
                        return Err(IntakeError::RelativeSource { line, value });
                    }
                    section.source = Some(value);
                } else {
                    if let Err(e) = section.own.state(line, key, value) {
                        return Err(e);
                    }
                }
                self.open = Some(section);
            },
        }
        Ok(())
    }

    fn line(&mut self, line: usize, raw: &[char]) -> (r: Result<(), IntakeError>)
        ensures
            match r {
                Ok(_) => line_step(old(self)@, line as nat, raw@) == Ok::<ReadModel, Problem>(
                    final(self)@,
                ),
                Err(e) => line_step(old(self)@, line as nat, raw@) == Err::<ReadModel, Problem>(
                    e@,
                ),
            },
    {
        let s: &[char] = trimmed(raw);
        if s.len() == 0 || s[0] == '#' {
            return Ok(());
        }
        if s[0] == '[' {
            self.header(line, s)
        } else {
            self.key(line, s)
        }
    }
}

/// Parse one set's declaration.
pub fn parse(name: &str, text: &str) -> (r: Result<FileSet, IntakeError>)
    ensures
        match r {
            Ok(set) => set.name@ == name@ && declared(text@) == Ok::<Seq<EntryModel>, Problem>(
                entry_models(set.entries@),
            ),
            Err(e) => declared(text@) == Err::<Seq<EntryModel>, Problem>(e@),
        },
{
    let cs = chars_of(text);
    let ls = lines_of(cs.as_slice());
    let ghost all = lines(text@);
    let mut st = Reading {
        defaults: Settings::none(),
        open: None,
        entries: Vec::new(),
        named: Vec::new(),
    };
    proof {
        assert(entry_models(st.entries@) =~= Seq::empty());
        assert(named_models(st.named@) =~= Seq::empty());
    }
    let mut i: usize = 0;
    while i < ls.len()
        invariant
            i <= ls@.len(),
            all == char_texts(ls@),
            all == lines(text@),
            read_lines(all, i as nat) == Ok::<ReadModel, Problem>(st@),
        decreases ls@.len() - i,
    {
        let ghost before = st@;
        assert(all[i as int] == ls@[i as int]@);
        let step = st.line(i + 1, ls[i].as_slice());
        assert(read_lines(all, (i + 1) as nat) == line_step(before, (i + 1) as nat, all[i as int]));
        if let Err(e) = step {
            proof {
                lemma_error_stands(all, (i + 1) as nat, all.len());
            }
            return Err(e);
        }
        i = i + 1;
    }
    if let Some(last) = st.open.take() {
        if let Err(e) = file_section(last, &st.defaults, &mut st.entries) {
            return Err(e);
        }
    }
    if st.entries.len() == 0 {
        assert(entry_models(st.entries@).len() == 0);
        return Err(IntakeError::Nothing);
    }
    assert(entry_models(st.entries@).len() > 0);
    Ok(FileSet { name: crate::text::text(name), entries: st.entries })
}

// ------------------------------------------------------------------ running

/// The declarations that an entry's store is brought to before anything tails
/// it: the host, then what the set declares.
pub fn converge_sets(entry: &Entry, host: &str) -> (r: Vec<String>)
    ensures
        texts(r@) == seq!["host="@ + host@] + texts(entry.declare@),
{
    let mut r: Vec<String> = Vec::new();
    r.push(text("host=").concat(host));
    let ghost all = texts(entry.declare@);
    let mut i: usize = 0;
    assert(texts(r@) =~= seq!["host="@ + host@] + all.take(0));
    while i < entry.declare.len()
        invariant
            i <= entry.declare@.len(),
            all == texts(entry.declare@),
            texts(r@) == seq!["host="@ + host@] + all.take(i as int),
        decreases entry.declare@.len() - i,
    {
        let d = text(entry.declare[i].as_str());
        proof {
            assert(texts(r@.push(d)) =~= texts(r@).push(d@));
            assert(all.take(i + 1) =~= all.take(i as int).push(d@));
            assert(texts(r@).push(d@) =~= seq!["host="@ + host@] + all.take(i + 1));
        }
        r.push(d);
        i = i + 1;
    }
    assert(all.take(i as int) =~= all);
    r
}

/// The line that a check prints for an entry: store, source, destination.
pub fn check_line(entry: &Entry) -> (r: String)
    ensures
        r@ == entry.store@ + "\t"@ + entry.source@ + "\t"@ + join(
            join(entry.store_dir@, entry.store@),
            entry.store@ + ".log"@,
        ),
{
    text(entry.store.as_str()).concat("\t").concat(entry.source.as_str()).concat("\t").concat(
        entry.dest().as_str(),
    )
}

/// The tail that ended a set, and what it said.
#[derive(Debug, Clone, PartialEq, Eq)]
pub struct Ended {
    pub store: String,
    pub said: String,
}

/// What to do about a tail that has ended.
#[derive(Debug, Clone, Copy, PartialEq, Eq, Structural)]
pub enum TailAction {
    /// The set is already winding down, or was asked to.
    Nothing,
    /// It failed: report it by name, and stop every other tail.
    ReportAndStop,
    /// It stopped on its own: stop every other tail.
    Stop,
}

/// How a set ends.
#[derive(Debug, Clone, PartialEq, Eq)]
pub enum SetEnd {
    /// The binary was replaced: exit so that a supervisor starts the new one.
    Upgraded,
    Failed(String),
    Done,
}

/// A set of tails as one unit of supervision: the first one to end that was
/// not asked to decides the exit, and every other one is stopped.
#[derive(Debug, Clone, PartialEq, Eq)]
pub struct SetRun {
    pub failure: Option<Ended>,
}

impl SetRun {
    /// Nothing has ended.
    pub fn new() -> (r: SetRun)
        ensures
            r.failure is None,
    {
        SetRun { failure: None }
    }

    /// A tail has ended: with an error that says `error`, or with none.
    /// `stopping` is whether the set was asked to stop.
    pub fn tail_ended(&mut self, store: &str, error: Option<&str>, stopping: bool) -> (action:
        TailAction)
        ensures
            action == (if old(self).failure is Some {
                TailAction::Nothing
            } else if error is Some {
                TailAction::ReportAndStop
            } else if stopping {
                TailAction::Nothing
            } else {
                TailAction::Stop
            }),
            action is Nothing ==> *final(self) == *old(self),
            !(action is Nothing) ==> match final(self).failure {
                Some(f) => f.store@ == store@ && f.said@ == (match error {
                    Some(e) => e@,
                    None => "["@ + store@ + "] stopped following on its own"@,
                }),
                None => false,
            },
            old(self).failure is Some ==> *final(self) == *old(self) && action is Nothing,
            old(self).failure is None && error is Some ==> action is ReportAndStop,
            final(self).failure is Some <==> old(self).failure is Some || error is Some
                || !stopping,
    {
        if self.failure.is_some() {
            return TailAction::Nothing;
        }
        match error {
            Some(e) => {
                self.failure = Some(Ended { store: text(store), said: text(e) });
                TailAction::ReportAndStop
            },
            None => {
                if stopping {
                    return TailAction::Nothing;
                }
                let said = text("[").concat(store).concat("] stopped following on its own");
                self.failure = Some(Ended { store: text(store), said });
                TailAction::Stop
            },
        }
    }

    /// How the set ends, once every tail has.
    pub fn end(&self, set: &str, upgraded: bool) -> (r: SetEnd)
        ensures
            match r {
                SetEnd::Upgraded => upgraded,
                SetEnd::Failed(m) => !upgraded && self.failure is Some && m@ == "file intake "@
                    + set@ + ": ["@ + self.failure->Some_0.store@
                    + "] ended, so the whole set was stopped: "@ + self.failure->Some_0.said@,
                SetEnd::Done => !upgraded && self.failure is None,
            },
    {
        if upgraded {
            return SetEnd::Upgraded;
        }
        match &self.failure {
            Some(f) => SetEnd::Failed(
                text("file intake ").concat(set).concat(": [").concat(f.store.as_str()).concat(
                    "] ended, so the whole set was stopped: ",
                ).concat(f.said.as_str()),
            ),
            None => SetEnd::Done,
        }
    }
}

} // verus!
