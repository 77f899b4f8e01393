//! The follower registry: a store's consumers as declared objects.
//!
//! A follower is a registered reader of the stores that a selection covers: a
//! name, a program, a retaining flag, and a place in each store it has read.
//! The declaration and the places are separate files because they have
//! separate writers, and the lock is a third, because saving places replaces
//! the file that a lock would be on.

use crate::cursor::{standing_at, stands, Cursor, Standing};
use crate::declaration::Declaration;
use crate::forests::{check_name, is_name, name_outcome, NameError};
use crate::format::ChunkRecord;
use crate::paths::{file_name, file_name_of, join, joined_path};
use crate::rank::{in_rank, rank_all, Rank, RankModel, Ranked};
use crate::text::{
    char_texts, chars_of, debug_char, debug_text, decimal, lines, lines_of, number_text, parse_u32,
    parsed, quoted, quoted_char, same, same_chars, strip_suffix, text, text_of, texts, trim,
    trimmed, without_suffix,
};
use vstd::prelude::*;
use vstd::slice::slice_subrange;
use vstd::string::StringExecFns;

verus! {

/// Where the registry lives: one directory per host, holding one directory per
/// follower.
pub const DEFAULT_REGISTRY: &'static str = "/var/lib/timberfs/followers";

/// Replaces the registry's path wholesale.
pub const REGISTRY_ENV: &'static str = "TIMBERFS_FOLLOWERS";

/// The unit template that runs a follower, named in messages so that the unit
/// an operator has to type is never guessed at.
pub const UNIT_TEMPLATE: &'static str = "timberfs-follower@";

/// The registry's directory, from what the environment says.
pub fn registry_dir(env: Option<&str>) -> (r: String)
    ensures
        r@ == (match env {
            Some(v) => if v@.len() > 0 {
                v@
            } else {
                DEFAULT_REGISTRY@
            },
            None => DEFAULT_REGISTRY@,
        }),
{
    match env {
        Some(v) => if v.is_empty() {
            text(DEFAULT_REGISTRY)
        } else {
            text(v)
        },
        None => text(DEFAULT_REGISTRY),
    }
}

pub fn follower_dir(reg: &str, name: &str) -> (r: String)
    ensures
        r@ == join(reg@, name@),
{
    joined_path(reg, name)
}

pub fn decl_path(reg: &str, name: &str) -> (r: String)
    ensures
        r@ == join(join(reg@, name@), "follower.json"@),
{
    joined_path(follower_dir(reg, name).as_str(), "follower.json")
}

pub fn positions_path(reg: &str, name: &str) -> (r: String)
    ensures
        r@ == join(join(reg@, name@), "positions.json"@),
{
    joined_path(follower_dir(reg, name).as_str(), "positions.json")
}

pub fn cursor_path(reg: &str, name: &str) -> (r: String)
    ensures
        r@ == join(join(reg@, name@), "cursor.json"@),
{
    joined_path(follower_dir(reg, name).as_str(), "cursor.json")
}

pub fn lock_path(reg: &str, name: &str) -> (r: String)
    ensures
        r@ == join(join(reg@, name@), "follower.lock"@),
{
    joined_path(follower_dir(reg, name).as_str(), "follower.lock")
}

/// The unit that runs a follower.
pub open spec fn unit_of(name: Seq<char>) -> Seq<char> {
    "timberfs-follower@"@ + name + ".service"@
}

pub fn unit_name(name: &str) -> (r: String)
    ensures
        r@ == unit_of(name@),
{
    text(UNIT_TEMPLATE).concat(name).concat(".service")
}

/// A follower's name is a directory name and a unit's instance and an argument,
/// so it is checked once against all three. Refused rather than escaped: an
/// escaped name would differ from the one the operator typed.
pub fn validate_name(name: &str) -> (r: Result<(), NameError>)
    ensures
        name_outcome(name, r),
        r is Ok <==> is_name(name@),
{
    check_name(name)
}

/// What is wrong with a follower's name.
pub open spec fn follower_name_said(e: NameError) -> Seq<char> {
    match e {
        NameError::Empty => "a follower needs a name"@,
        NameError::TooLong(n) => "follower name "@ + quoted(n@)
            + " is too long (64 characters at most)"@,
        NameError::Dots(n) => quoted(n@) + " is not a name"@,
        NameError::LeadingDash(n) => "follower name "@ + quoted(n@)
            + " may not start with `-` (it would read as a flag)"@,
        NameError::BadChar(n, c) => "follower name "@ + quoted(n@) + " contains "@ + quoted_char(c)
            + " — names are [A-Za-z0-9_.-], so that they need no systemd-escape and read the same in `systemctl status` as here"@,
    }
}

/// What is wrong with a follower's name.
pub fn follower_name_message(e: &NameError) -> (r: String)
    ensures
        r@ == follower_name_said(*e),
{
    match e {
        NameError::Empty => text("a follower needs a name"),
        NameError::TooLong(n) => text("follower name ").concat(
            debug_text(n.as_str()).as_str(),
        ).concat(" is too long (64 characters at most)"),
        NameError::Dots(n) => debug_text(n.as_str()).concat(" is not a name"),
        NameError::LeadingDash(n) => text("follower name ").concat(
            debug_text(n.as_str()).as_str(),
        ).concat(" may not start with `-` (it would read as a flag)"),
        NameError::BadChar(n, c) => text("follower name ").concat(
            debug_text(n.as_str()).as_str(),
        ).concat(" contains ").concat(debug_char(*c).as_str()).concat(
            " — names are [A-Za-z0-9_.-], so that they need no systemd-escape and read the same in `systemctl status` as here",
        ),
    }
}

// ----------------------------------------------------------------- liveness

/// Is a follower's process live? From the lock, which the kernel releases on
/// process death and which therefore cannot go stale.
#[derive(Clone, Copy, Debug, PartialEq, Eq, Structural)]
pub enum Liveness {
    Running,
    Stopped,
    /// The lock is there but cannot be read. Never rendered as stopped.
    Unknown,
}

impl Liveness {
    /// For a column, where the header supplies the question.
    pub open spec fn shown(self) -> Seq<char> {
        match self {
            Liveness::Running => "yes"@,
            Liveness::Stopped => "no"@,
            Liveness::Unknown => "?"@,
        }
    }

    /// For a column, where the header supplies the question.
    pub fn text(&self) -> (r: &'static str)
        ensures
            r@ == self.shown(),
    {
        match self {
            Liveness::Running => "yes",
            Liveness::Stopped => "no",
            Liveness::Unknown => "?",
        }
    }

    /// For a line with no column header to lean on.
    pub fn word(&self) -> (r: &'static str)
        ensures
            r@ == (match *self {
                Liveness::Running => "running"@,
                Liveness::Stopped => "stopped"@,
                Liveness::Unknown => "liveness unknown"@,
            }),
    {
        match self {
            Liveness::Running => "running",
            Liveness::Stopped => "stopped",
            Liveness::Unknown => "liveness unknown",
        }
    }
}

/// What trying a lock shows.
#[derive(Clone, Copy, Debug, PartialEq, Eq, Structural)]
pub enum LockProbe {
    Absent,
    Free,
    Unreadable,
    Held,
}

/// Two facts, and each covers the other's hole. The lock says that somebody
/// holds it, who may be a child that inherited it; the recorded process says
/// whether that somebody is the follower. Held by nobody who can be told, it
/// is never stopped.
pub fn liveness(probe: LockProbe, recorded: Option<u32>, alive: bool) -> (r: Liveness)
    ensures
        r == (match probe {
            LockProbe::Absent | LockProbe::Free => Liveness::Stopped,
            LockProbe::Unreadable => Liveness::Unknown,
            LockProbe::Held => if recorded is None {
                Liveness::Unknown
            } else if alive {
                Liveness::Running
            } else {
                Liveness::Stopped
            },
        }),
        r is Running <==> probe is Held && recorded is Some && alive,
        r is Unknown <==> probe is Unreadable || (probe is Held && recorded is None),
{
    match probe {
        LockProbe::Absent | LockProbe::Free => Liveness::Stopped,
        LockProbe::Unreadable => Liveness::Unknown,
        LockProbe::Held => match recorded {
            Some(_) => if alive {
                Liveness::Running
            } else {
                Liveness::Stopped
            },
            None => Liveness::Unknown,
        },
    }
}

/// What stands behind the last `pid=`, looking no further than the `i`th
/// character for its start.
pub open spec fn behind_last(s: Seq<char>, mark: Seq<char>, i: int) -> Option<Seq<char>>
    decreases i + 1,
{
    if i < 0 {
        None
    } else if i + mark.len() <= s.len() && s.subrange(i, i + mark.len()) == mark {
        Some(s.skip(i + mark.len()))
    } else {
        behind_last(s, mark, i - 1)
    }
}

/// The process that a lock's text records: on its first line, behind the last
/// `pid=`.
pub open spec fn pid_in(raw: Seq<char>) -> Option<nat> {
    if lines(raw).len() == 0 {
        None
    } else {
        match behind_last(lines(raw)[0], "pid="@, lines(raw)[0].len() as int) {
            Some(t) => parsed(trim(t), u32::MAX as nat),
            None => None,
        }
    }
}

/// The process that a lock's text records. Not trusted on its own: it is only
/// ever read for a lock that is held.
pub fn recorded_pid(raw: &str) -> (r: Option<u32>)
    ensures
        match r {
            Some(n) => pid_in(raw@) == Some(n as nat),
            None => pid_in(raw@) is None,
        },
{
    let cs = chars_of(raw);
    let all = lines_of(cs.as_slice());
    proof {
        assert(char_texts(all@).len() == all@.len());
    }
    if all.len() == 0 {
        return None;
    }
    let line = &all[0];
    let mark = chars_of("pid=");
    proof {
        assert(char_texts(all@)[0] == line@);
        reveal_strlit("pid=");
        assert(mark@.len() == 4);
    }
    let size: usize = line.len();
    if size < 4 {
        proof {
            lemma_too_short(line@, "pid="@, size as int);
        }
        return None;
    }
    proof {
        lemma_not_past(line@, "pid="@, size as int, size - 4);
    }
    let mut i: usize = size - 3;
    while i > 0
        invariant
            i + 3 <= size,
            size == line@.len(),
            mark@ == "pid="@,
            mark@.len() == 4,
            behind_last(line@, "pid="@, line@.len() as int) == behind_last(
                line@,
                "pid="@,
                i - 1,
            ),
            pid_in(raw@) == (match behind_last(line@, "pid="@, line@.len() as int) {
                Some(t) => parsed(trim(t), u32::MAX as nat),
                None => None,
            }),
        decreases i,
    {
        i = i - 1;
        let part = slice_subrange(line.as_slice(), i, i + 4);
        if same_chars(part, mark.as_slice()) {
            let rest = slice_subrange(line.as_slice(), i + 4, size);
            proof {
                assert(rest@ =~= line@.skip(i + 4));
            }
            return parse_u32(trimmed(rest));
        }
    }
    None
}

proof fn lemma_too_short(s: Seq<char>, mark: Seq<char>, i: int)
    requires
        s.len() < mark.len(),
    ensures
        behind_last(s, mark, i) is None,
    decreases i + 1,
{
    if i >= 0 {
        lemma_too_short(s, mark, i - 1);
    }
}

proof fn lemma_not_past(s: Seq<char>, mark: Seq<char>, i: int, k: int)
    requires
        0 <= k <= i,
        k + mark.len() == s.len(),
    ensures
        behind_last(s, mark, i) == behind_last(s, mark, k),
    decreases i,
{
    if i > k {
        lemma_not_past(s, mark, i - 1, k);
    }
}

// ------------------------------------------------------------------- places

/// A consumer's last word.
#[derive(Clone, Debug, PartialEq, Eq)]
pub struct Note {
    pub text: String,
    pub offset: Option<u64>,
    pub when: String,
}

/// A follower's place in one store.
#[derive(Clone, Debug, PartialEq, Eq)]
pub struct StorePlace {
    /// The store's identity.
    pub id: String,
    /// Where the store was, by its logical name.
    pub path: String,
    pub offset: u64,
    pub chunk: Option<u64>,
    pub wl: u64,
    /// How much was delivered from the store, over all runs.
    pub delivered: u64,
}

/// A consumer's last word about a store.
#[derive(Clone, Debug, PartialEq, Eq)]
pub struct StoreNote {
    pub id: String,
    pub note: Note,
}

/// A follower's places, one per store it has read, and what its consumer said.
#[derive(Clone, Debug, PartialEq, Eq)]
pub struct Positions {
    pub consumer: String,
    pub at: Vec<StorePlace>,
    pub notes: Vec<StoreNote>,
    pub note: Option<Note>,
}

/// A follower's places, as reading them can turn out. A file that is missing
/// says that the follower has never run; one that is unreadable says nothing
/// at all, and is never rendered as nothing consumed.
#[derive(Clone, Debug, PartialEq, Eq)]
pub enum Places {
    Never,
    Unreadable,
    Held(Positions),
}

impl Places {
    pub fn held(&self) -> (r: Option<&Positions>)
        ensures
            match *self {
                Places::Held(p) => r == Some(&p),
                _ => r is None,
            },
    {
        match self {
            Places::Held(p) => Some(p),
            _ => None,
        }
    }
}

/// Which place is that in a store; how many there are where none is.
pub open spec fn place_index(at: Seq<StorePlace>, id: Seq<char>, i: int) -> int
    decreases at.len() - i,
{
    if i >= at.len() || at[i].id@ == id {
        i
    } else {
        place_index(at, id, i + 1)
    }
}

/// The place in a store, if there is one.
pub open spec fn place_in(at: Seq<StorePlace>, id: Seq<char>) -> Option<StorePlace> {
    if place_index(at, id, 0) < at.len() {
        Some(at[place_index(at, id, 0)])
    } else {
        None
    }
}

fn find_place<'a>(at: &'a Vec<StorePlace>, id: &str) -> (r: Option<&'a StorePlace>)
    ensures
        match r {
            Some(p) => place_in(at@, id@) == Some(*p),
            None => place_in(at@, id@) is None,
        },
{
    let mut i: usize = 0;
    while i < at.len()
        invariant
            i <= at@.len(),
            place_index(at@, id@, 0) == place_index(at@, id@, i as int),
        decreases at@.len() - i,
    {
        if same(at[i].id.as_str(), id) {
            return Some(&at[i]);
        }
        i = i + 1;
    }
    None
}

/// A place as it is recorded.
pub struct PlaceModel {
    pub id: Seq<char>,
    pub path: Seq<char>,
    pub offset: u64,
    pub chunk: Option<u64>,
    pub wl: u64,
    pub delivered: u64,
}

impl View for StorePlace {
    type V = PlaceModel;

    open spec fn view(&self) -> PlaceModel {
        PlaceModel {
            id: self.id@,
            path: self.path@,
            offset: self.offset,
            chunk: self.chunk,
            wl: self.wl,
            delivered: self.delivered,
        }
    }
}

/// What a list of places is.
pub open spec fn place_models(v: Seq<StorePlace>) -> Seq<PlaceModel> {
    Seq::new(v.len(), |i: int| v[i]@)
}

/// The places after one was moved, or recorded for the first time: what was
/// delivered is counted on.
pub open spec fn advanced_places(at: Seq<StorePlace>, to: PlaceModel) -> Seq<PlaceModel> {
    let k = place_index(at, to.id, 0);
    if k < at.len() {
        place_models(at).update(
            k,
            PlaceModel { delivered: (at[k].delivered + to.delivered) as u64, ..to },
        )
    } else {
        place_models(at).push(to)
    }
}

impl Positions {
    /// No place in any store.
    pub fn new(consumer: &str) -> (r: Positions)
        ensures
            r.consumer@ == consumer@,
            r.at@.len() == 0,
            r.notes@.len() == 0,
            r.note is None,
    {
        Positions { consumer: text(consumer), at: Vec::new(), notes: Vec::new(), note: None }
    }

    /// The place in a store, if there is one.
    pub fn get(&self, id: &str) -> (r: Option<&StorePlace>)
        ensures
            match r {
                Some(p) => place_in(self.at@, id@) == Some(*p),
                None => place_in(self.at@, id@) is None,
            },
    {
        find_place(&self.at, id)
    }

    /// Moves the place in a store, by what was delivered from it since.
    pub fn advance(
        &mut self,
        id: &str,
        path: &str,
        offset: u64,
        chunk: Option<u64>,
        wl: u64,
        delivered: u64,
    )
        requires
            match place_in(old(self).at@, id@) {
                Some(p) => p.delivered + delivered <= u64::MAX,
                None => true,
            },
        ensures
            place_models(final(self).at@) == advanced_places(
                old(self).at@,
                (PlaceModel { id: id@, path: path@, offset, chunk, wl, delivered }),
            ),
            final(self).consumer == old(self).consumer,
            final(self).notes == old(self).notes,
            final(self).note == old(self).note,
    {
        let ghost was = self.at@;
        let mut i: usize = 0;
        while i < self.at.len()
            invariant
                i <= self.at@.len(),
                self.at@ == was,
                place_index(was, id@, 0) == place_index(was, id@, i as int),
                self.consumer == old(self).consumer,
                self.notes == old(self).notes,
                self.note == old(self).note,
                was == old(self).at@,
                match place_in(was, id@) {
                    Some(p) => p.delivered + delivered <= u64::MAX,
                    None => true,
                },
            decreases self.at@.len() - i,
        {
            if same(self.at[i].id.as_str(), id) {
                let so_far: u64 = self.at[i].delivered;
                let place = StorePlace {
                    id: text(id),
                    path: text(path),
                    offset,
                    chunk,
                    wl,
                    delivered: so_far + delivered,
                };
                self.at.set(i, place);
                proof {
                    assert(place_models(self.at@) =~= place_models(was).update(i as int, place@));
                }
                return;
            }
            i = i + 1;
        }
        let place = StorePlace { id: text(id), path: text(path), offset, chunk, wl, delivered };
        self.at.push(place);
        proof {
            assert(place_models(self.at@) =~= place_models(was).push(place@));
        }
    }
}

/// Which word is that about a store; how many there are where none is.
pub open spec fn note_index(notes: Seq<StoreNote>, id: Seq<char>, i: int) -> int
    decreases notes.len() - i,
{
    if i >= notes.len() || notes[i].id@ == id {
        i
    } else {
        note_index(notes, id, i + 1)
    }
}

// ------------------------------------------------------------------ covered

/// What a word is.
pub struct NoteModel {
    pub text: Seq<char>,
    pub offset: Option<u64>,
    pub when: Seq<char>,
}

impl View for Note {
    type V = NoteModel;

    open spec fn view(&self) -> NoteModel {
        NoteModel { text: self.text@, offset: self.offset, when: self.when@ }
    }
}

impl Note {
    fn copy(&self) -> (r: Note)
        ensures
            r@ == self@,
    {
        Note { text: text(self.text.as_str()), offset: self.offset, when: text(self.when.as_str()) }
    }
}

/// One store that a follower covers, as a view renders it.
#[derive(Clone, Debug, PartialEq, Eq)]
pub struct Covered {
    pub id: String,
    pub path: String,
    /// Where it stands in that store; nothing where the store's index cannot
    /// be read, which is never caught up.
    pub standing: Option<Standing>,
    /// Has this follower read anything from this store at all?
    pub read: bool,
    /// The consumer's last word about this store.
    pub note: Option<Note>,
}

/// What a covered store is.
pub struct CoveredModel {
    pub id: Seq<char>,
    pub path: Seq<char>,
    pub standing: Option<Standing>,
    pub read: bool,
    pub note: Option<NoteModel>,
}

/// What a word that may be missing is.
pub open spec fn note_model(n: Option<Note>) -> Option<NoteModel> {
    match n {
        Some(n) => Some(n@),
        None => None,
    }
}

impl View for Covered {
    type V = CoveredModel;

    open spec fn view(&self) -> CoveredModel {
        CoveredModel {
            id: self.id@,
            path: self.path@,
            standing: self.standing,
            read: self.read,
            note: note_model(self.note),
        }
    }
}

/// A store's handle, from the path of its logical file: the file's name,
/// without a `.log` at its end.
pub open spec fn handle_at(path: Seq<char>) -> Seq<char> {
    match file_name(path) {
        Some(name) => match strip_suffix(name, ".log"@) {
            Some(s) => s,
            None => name,
        },
        None => Seq::empty(),
    }
}

fn handle_of_path(path: &str) -> (r: String)
    ensures
        r@ == handle_at(path@),
{
    match file_name_of(path) {
        Some(name) => {
            let cs = chars_of(name.as_str());
            match without_suffix(cs.as_slice(), ".log") {
                Some(s) => text_of(s),
                None => name,
            }
        },
        None => {
            let r = String::new();
            proof {
                assert(r@ =~= Seq::<char>::empty());
            }
            r
        },
    }
}

/// How much of a store is behind, where that is known.
pub open spec fn bytes_behind(c: CoveredModel) -> u64 {
    match c.standing {
        Some(s) => s.behind_bytes,
        None => 0,
    }
}

impl Covered {
    pub fn behind_bytes(&self) -> (r: u64)
        ensures
            r == bytes_behind(self@),
    {
        match &self.standing {
            Some(s) => s.behind_bytes,
            None => 0,
        }
    }

    pub fn handle(&self) -> (r: String)
        ensures
            r@ == handle_at(self@.path),
    {
        handle_of_path(self.path.as_str())
    }
}

/// Unread first, then the furthest behind, then by handle.
pub open spec fn covered_rank(c: CoveredModel) -> RankModel {
    RankModel {
        first: if c.read {
            1
        } else {
            0
        },
        second: (u64::MAX - bytes_behind(c)) as u64,
        name: handle_at(c.path),
    }
}

impl Ranked for Covered {
    open spec fn rankable(&self) -> bool {
        true
    }

    open spec fn rank_model(&self) -> RankModel {
        covered_rank(self@)
    }

    fn rank(&self) -> (r: Rank) {
        Rank {
            first: if self.read {
                1
            } else {
                0
            },
            second: u64::MAX - self.behind_bytes(),
            name: self.handle(),
        }
    }
}

// --------------------------------------------------------------- registered

/// A registered follower, read: its declaration, its places, whether it is
/// running, and every store that its selection covers now, worst first.
#[derive(Debug, Clone)]
pub struct Registered {
    pub decl: Declaration,
    pub places: Places,
    pub live: Liveness,
    pub covered: Vec<Covered>,
}

/// What a list of covered stores is.
pub open spec fn covered_models(v: Seq<Covered>) -> Seq<CoveredModel> {
    Seq::new(v.len(), |i: int| v[i]@)
}

/// How much is behind over a list of stores.
pub open spec fn total_behind(v: Seq<Covered>) -> nat
    decreases v.len(),
{
    if v.len() == 0 {
        0
    } else {
        total_behind(v.drop_last()) + bytes_behind(v.last()@) as nat
    }
}

/// How many of a list of stores were never read.
pub open spec fn unread_among(v: Seq<Covered>) -> nat
    decreases v.len(),
{
    if v.len() == 0 {
        0
    } else {
        unread_among(v.drop_last()) + (if v.last().read {
            0nat
        } else {
            1nat
        })
    }
}

/// The first that was never read, from the `i`th on.
pub open spec fn first_unread(v: Seq<Covered>, i: int) -> int
    decreases v.len() - i,
{
    if i >= v.len() || !v[i].read {
        i
    } else {
        first_unread(v, i + 1)
    }
}

/// The last of those that are the furthest behind, from the `i`th on, given
/// the last of them among those before.
pub open spec fn last_worst(v: Seq<Covered>, i: int, best: int) -> int
    decreases v.len() - i,
{
    if i >= v.len() {
        best
    } else if bytes_behind(v[i]@) >= bytes_behind(v[best]@) {
        last_worst(v, i + 1, i)
    } else {
        last_worst(v, i + 1, best)
    }
}

/// The store that decides how much is unread: the first that was never read,
/// else the one furthest behind.
pub open spec fn worst_of(v: Seq<Covered>) -> Option<int> {
    if v.len() == 0 {
        None
    } else if first_unread(v, 0) < v.len() {
        Some(first_unread(v, 0))
    } else {
        Some(last_worst(v, 1, 0))
    }
}

/// The first store of an identity.
pub open spec fn covered_index(v: Seq<Covered>, id: Seq<char>, i: int) -> int
    decreases v.len() - i,
{
    if i >= v.len() || v[i].id@ == id {
        i
    } else {
        covered_index(v, id, i + 1)
    }
}

/// How many of a list of stores were never read.
pub fn count_unread(v: &Vec<Covered>) -> (n: usize)
    ensures
        n == unread_among(v@),
        n <= v@.len(),
{
    let mut n: usize = 0;
    let mut i: usize = 0;
    while i < v.len()
        invariant
            i <= v@.len(),
            n <= i,
            n == unread_among(v@.take(i as int)),
        decreases v@.len() - i,
    {
        proof {
            assert(v@.take(i + 1).drop_last() =~= v@.take(i as int));
        }
        if !v[i].read {
            n = n + 1;
        }
        i = i + 1;
    }
    proof {
        assert(v@.take(i as int) =~= v@);
    }
    n
}

pub proof fn lemma_total_behind_grows(v: Seq<Covered>, k: int)
    requires
        0 <= k <= v.len(),
    ensures
        total_behind(v.take(k)) <= total_behind(v),
    decreases v.len(),
{
    if k == v.len() {
        assert(v.take(k) =~= v);
    } else {
        assert(v.drop_last().take(k) =~= v.take(k));
        lemma_total_behind_grows(v.drop_last(), k);
    }
}

/// How much is behind over a list of stores.
pub fn sum_behind(v: &Vec<Covered>) -> (n: u64)
    requires
        total_behind(v@) <= u64::MAX,
    ensures
        n == total_behind(v@),
{
    let mut n: u64 = 0;
    let mut i: usize = 0;
    while i < v.len()
        invariant
            i <= v@.len(),
            total_behind(v@) <= u64::MAX,
            n == total_behind(v@.take(i as int)),
        decreases v@.len() - i,
    {
        proof {
            assert(v@.take(i + 1).drop_last() =~= v@.take(i as int));
            lemma_total_behind_grows(v@, i + 1);
        }
        n = n + v[i].behind_bytes();
        i = i + 1;
    }
    proof {
        assert(v@.take(i as int) =~= v@);
    }
    n
}

/// A recorded place in a store that is no longer covered, and whether the
/// store is still on disk.
#[derive(Clone, Debug, PartialEq, Eq)]
pub struct Uncovered {
    pub id: String,
    pub on_disk: bool,
}

/// What a place in a store that is no longer covered is.
pub struct UncoveredModel {
    pub id: Seq<char>,
    pub on_disk: bool,
}

/// What a list of such places is.
pub open spec fn uncovered_models(v: Seq<Uncovered>) -> Seq<UncoveredModel> {
    Seq::new(v.len(), |i: int| UncoveredModel { id: v[i].id@, on_disk: v[i].on_disk })
}

/// The places in stores that are no longer covered, in the order recorded. A
/// place without a path is of nothing on disk.
pub open spec fn uncovered_in(
    at: Seq<StorePlace>,
    covered: Seq<Covered>,
    on_disk: Seq<Seq<char>>,
) -> Seq<UncoveredModel>
    decreases at.len(),
{
    if at.len() == 0 {
        Seq::empty()
    } else {
        let front = uncovered_in(at.drop_last(), covered, on_disk);
        let last = at.last();
        if covered_index(covered, last.id@, 0) < covered.len() {
            front
        } else {
            front.push(
                UncoveredModel {
                    id: last.id@,
                    on_disk: last.path@.len() > 0 && on_disk.contains(last.id@),
                },
            )
        }
    }
}

fn has_text(v: &Vec<String>, t: &str) -> (r: bool)
    ensures
        r == texts(v@).contains(t@),
{
    let mut i: usize = 0;
    while i < v.len()
        invariant
            i <= v@.len(),
            forall|j: int| 0 <= j < i ==> (#[trigger] v@[j])@ != t@,
        decreases v@.len() - i,
    {
        if same(v[i].as_str(), t) {
            assert(texts(v@)[i as int] == t@);
            return true;
        }
        i = i + 1;
    }
    assert forall|j: int| 0 <= j < texts(v@).len() implies texts(v@)[j] != t@ by {
        assert(v@[j]@ != t@);
    }
    false
}

/// What it follows, for a column: one store's handle where it covers one that
/// has a name, else the selection.
pub open spec fn follows(r: Registered) -> Seq<char> {
    if r.covered@.len() == 1 && file_name(r.covered@[0].path@) is Some && file_name(
        r.covered@[0].path@,
    )->Some_0.len() > 0 {
        handle_at(r.covered@[0].path@)
    } else {
        r.decl.select@
    }
}

/// One phrase for how a follower is doing, across its whole selection: what is
/// unreadable outranks a selection that matches nothing, which outranks a
/// store never read, which outranks a distance.
pub open spec fn lag_said(r: Registered, distance: Seq<char>) -> Seq<char> {
    let n = r.covered@.len();
    let unread = unread_among(r.covered@);
    if r.places is Unreadable {
        "positions unreadable"@
    } else if n == 0 {
        "matches nothing"@
    } else if unread == n {
        "never run"@
    } else if unread > 0 {
        decimal(unread) + " of "@ + decimal(n) + " never read"@
    } else {
        match r.covered@[worst_of(r.covered@)->Some_0].standing {
            Some(st) => st.lag(distance),
            None => "store unreadable"@,
        }
    }
}

impl Registered {
    /// Whether what is behind can be counted.
    pub open spec fn wf(&self) -> bool {
        total_behind(self.covered@) <= u64::MAX
    }

    pub fn name(&self) -> (r: &str)
        ensures
            r@ == self.decl.name@,
    {
        self.decl.name.as_str()
    }

    /// What it follows, for a column.
    pub fn follows_text(&self) -> (r: String)
        ensures
            r@ == follows(*self),
    {
        if self.covered.len() == 1 {
            if let Some(name) = file_name_of(self.covered[0].path.as_str()) {
                if !name.as_str().is_empty() {
                    return self.covered[0].handle();
                }
            }
        }
        text(self.decl.select.as_str())
    }

    /// Does this follower hold an entire store's head back? True of a
    /// retaining one that covers a store it has never read.
    pub fn holds_everything(&self) -> (r: bool)
        ensures
            r == holds_whole_store(*self),
    {
        if !self.decl.retaining {
            return false;
        }
        let mut i: usize = 0;
        while i < self.covered.len()
            invariant
                i <= self.covered@.len(),
                self.decl.retaining,
                forall|j: int| 0 <= j < i ==> (#[trigger] self.covered@[j]).read,
            decreases self.covered@.len() - i,
        {
            if !self.covered[i].read {
                return true;
            }
            i = i + 1;
        }
        false
    }

    /// Where it stands in one store, by identity.
    pub fn at(&self, id: &str) -> (r: Option<&Covered>)
        ensures
            ({
                let k = covered_index(self.covered@, id@, 0);
                if k < self.covered@.len() {
                    r == Some(&self.covered@[k])
                } else {
                    r is None
                }
            }),
    {
        let mut i: usize = 0;
        while i < self.covered.len()
            invariant
                i <= self.covered@.len(),
                covered_index(self.covered@, id@, 0) == covered_index(
                    self.covered@,
                    id@,
                    i as int,
                ),
            decreases self.covered@.len() - i,
        {
            if same(self.covered[i].id.as_str(), id) {
                return Some(&self.covered[i]);
            }
            i = i + 1;
        }
        None
    }

    /// The store that decides how much is unread.
    pub fn worst(&self) -> (r: Option<&Covered>)
        ensures
            match worst_of(self.covered@) {
                Some(k) => 0 <= k < self.covered@.len() && r == Some(&self.covered@[k]),
                None => r is None,
            },
    {
        if self.covered.len() == 0 {
            return None;
        }
        let mut i: usize = 0;
        while i < self.covered.len()
            invariant
                i <= self.covered@.len(),
                first_unread(self.covered@, 0) == first_unread(self.covered@, i as int),
            decreases self.covered@.len() - i,
        {
            if !self.covered[i].read {
                return Some(&self.covered[i]);
            }
            i = i + 1;
        }
        let mut best: usize = 0;
        let mut k: usize = 1;
        while k < self.covered.len()
            invariant
                1 <= k <= self.covered@.len(),
                best < k,
                last_worst(self.covered@, 1, 0) == last_worst(
                    self.covered@,
                    k as int,
                    best as int,
                ),
            decreases self.covered@.len() - k,
        {
            if self.covered[k].behind_bytes() >= self.covered[best].behind_bytes() {
                best = k;
            }
            k = k + 1;
        }
        Some(&self.covered[best])
    }

    /// How much it is behind, over the stores it covers.
    pub fn behind_bytes(&self) -> (n: u64)
        requires
            self.wf(),
        ensures
            n == total_behind(self.covered@),
    {
        sum_behind(&self.covered)
    }

    /// Recorded places in stores that it no longer covers, each with whether
    /// its backing is on disk, which `on_disk` lists by identity. A place is
    /// kept when a store leaves, so that it resumes when it comes back.
    pub fn uncovered(&self, on_disk: &Vec<String>) -> (r: Vec<Uncovered>)
        ensures
            uncovered_models(r@) == (match self.places {
                Places::Held(p) => uncovered_in(p.at@, self.covered@, texts(on_disk@)),
                _ => Seq::<UncoveredModel>::empty(),
            }),
    {
        let mut out: Vec<Uncovered> = Vec::new();
        proof {
            assert(uncovered_models(out@) =~= Seq::<UncoveredModel>::empty());
        }
        let p = match &self.places {
            Places::Held(p) => p,
            _ => {
                return out;
            },
        };
        let mut i: usize = 0;
        while i < p.at.len()
            invariant
                i <= p.at@.len(),
                uncovered_models(out@) == uncovered_in(
                    p.at@.take(i as int),
                    self.covered@,
                    texts(on_disk@),
                ),
            decreases p.at@.len() - i,
        {
            let one = &p.at[i];
            proof {
                assert(p.at@.take(i + 1).drop_last() =~= p.at@.take(i as int));
            }
            if self.at(one.id.as_str()).is_none() {
                let ghost was = out@;
                let u = Uncovered {
                    id: text(one.id.as_str()),
                    on_disk: !one.path.as_str().is_empty() && has_text(on_disk, one.id.as_str()),
                };
                out.push(u);
                proof {
                    assert(uncovered_models(out@) =~= uncovered_models(was).push(
                        (UncoveredModel { id: u.id@, on_disk: u.on_disk }),
                    ));
                }
            }
            i = i + 1;
        }
        proof {
            assert(p.at@.take(i as int) =~= p.at@);
        }
        out
    }

    /// One phrase for how this follower is doing. `distance` is how far behind
    /// its worst store is, as it is shown.
    pub fn lag_text(&self, distance: &str) -> (r: String)
        ensures
            r@ == lag_said(*self, distance@),
    {
        if matches!(self.places, Places::Unreadable) {
            return text("positions unreadable");
        }
        let n: usize = self.covered.len();
        if n == 0 {
            return text("matches nothing");
        }
        let unread: usize = count_unread(&self.covered);
        if unread == n {
            return text("never run");
        }
        if unread > 0 {
            return number_text(unread as u64).concat(" of ").concat(
                number_text(n as u64).as_str(),
            ).concat(" never read");
        }
        match self.worst() {
            Some(c) => match &c.standing {
                Some(st) => st.lag_text(distance),
                None => text("store unreadable"),
            },
            None => text("store unreadable"),
        }
    }
}

/// Whether a follower holds an entire store's head back.
pub open spec fn holds_whole_store(r: Registered) -> bool {
    r.decl.retaining && exists|i: int|
        0 <= i < r.covered@.len() && !(#[trigger] r.covered@[i]).read
}

/// Holding a whole store first, then the furthest behind, then by name.
pub open spec fn follower_rank(r: Registered) -> RankModel {
    RankModel {
        first: if holds_whole_store(r) {
            0
        } else {
            1
        },
        second: (u64::MAX - total_behind(r.covered@)) as u64,
        name: r.decl.name@,
    }
}

impl Ranked for Registered {
    open spec fn rankable(&self) -> bool {
        self.wf()
    }

    open spec fn rank_model(&self) -> RankModel {
        follower_rank(*self)
    }

    fn rank(&self) -> (r: Rank) {
        Rank {
            first: if self.holds_everything() {
                0
            } else {
                1
            },
            second: u64::MAX - self.behind_bytes(),
            name: text(self.name()),
        }
    }
}

/// Those of a list that are told to cover a store.
pub open spec fn chosen(held: Seq<Registered>, covers: Seq<bool>) -> Seq<Registered>
    decreases held.len(),
{
    if held.len() == 0 {
        Seq::empty()
    } else {
        let front = chosen(held.drop_last(), covers);
        if held.len() <= covers.len() && covers[held.len() - 1] {
            front.push(held.last())
        } else {
            front
        }
    }
}

/// Those of a list whose selection covers a store, as told for each, ranked:
/// the one that decides how much of the store is unread comes first.
pub fn covering(held: Vec<Registered>, covers: &Vec<bool>) -> (r: Vec<Registered>)
    requires
        forall|i: int| 0 <= i < held@.len() ==> (#[trigger] held@[i]).wf(),
    ensures
        r@ == in_rank(chosen(held@, covers@)),
{
    let ghost all = held@;
    let mut mine: Vec<Registered> = Vec::new();
    let mut i: usize = 0;
    proof {
        assert(mine@ =~= Seq::empty());
        assert(all.take(0) =~= Seq::empty());
    }
    let size: usize = held.len();
    for one in it: held
        invariant
            it.seq() == all,
            size == all.len(),
            i == it.index(),
            forall|j: int| 0 <= j < all.len() ==> (#[trigger] all[j]).wf(),
            mine@ == chosen(all.take(it.index() as int), covers@),
            forall|j: int| 0 <= j < mine@.len() ==> (#[trigger] mine@[j]).rankable(),
    {
        proof {
            assert(all.take(i + 1).drop_last() =~= all.take(i as int));
            assert(all.take(i + 1).last() == one);
            assert(all[i as int].wf());
        }
        if i < covers.len() && covers[i] {
            let ghost was = mine@;
            mine.push(one);
            proof {
                assert forall|j: int| 0 <= j < mine@.len() implies (
                #[trigger] mine@[j]).rankable() by {
                    if j < was.len() {
                        assert(was[j].rankable());
                    }
                }
            }
        }
        i = i + 1;
    }
    proof {
        assert(all.take(all.len() as int) =~= all);
    }
    rank_all(mine)
}

// ------------------------------------------------------------------ reading

/// A store that a selection matches.
#[derive(Clone, Debug, PartialEq, Eq)]
pub struct Matched {
    /// Nothing where the store has no identity, and so cannot be followed.
    pub id: Option<String>,
    pub dir: String,
    pub name: String,
    pub handle: String,
    /// The store's chunks; nothing where its index cannot be read.
    pub records: Option<Vec<ChunkRecord>>,
}

/// Whether the last chunk ends where a number can say.
pub open spec fn measurable(m: Matched) -> bool {
    match m.records {
        Some(v) => v@.len() > 0 ==> v@.last().comp_start + v@.last().comp_len <= u64::MAX,
        None => true,
    }
}

/// The place that is recorded in a store.
pub open spec fn recorded_in(p: Option<Positions>, id: Seq<char>) -> Option<StorePlace> {
    match p {
        Some(p) => place_in(p.at@, id),
        None => None,
    }
}

/// The consumer's last word about a store.
pub open spec fn said_of(p: Option<Positions>, id: Seq<char>) -> Option<NoteModel> {
    match p {
        Some(p) => if note_index(p.notes@, id, 0) < p.notes@.len() {
            Some(p.notes@[note_index(p.notes@, id, 0)].note@)
        } else {
            None
        },
        None => None,
    }
}

/// A matched store as a covered one, where it has an identity.
pub open spec fn covered_of(m: Matched, p: Option<Positions>) -> Option<CoveredModel> {
    match m.id {
        None => None,
        Some(id) => {
            let at = recorded_in(p, id@);
            Some(
                CoveredModel {
                    id: id@,
                    path: join(m.dir@, m.name@),
                    standing: match m.records {
                        Some(v) => Some(
                            stands(
                                match at {
                                    Some(a) => a.chunk,
                                    None => None,
                                },
                                match at {
                                    Some(a) => a.wl,
                                    None => 0,
                                },
                                v@,
                            ),
                        ),
                        None => None,
                    },
                    read: at is Some,
                    note: said_of(p, id@),
                },
            )
        },
    }
}

/// The stores that a selection covers, in the order matched.
pub open spec fn all_covered(v: Seq<Matched>, p: Option<Positions>) -> Seq<CoveredModel>
    decreases v.len(),
{
    if v.len() == 0 {
        Seq::empty()
    } else {
        match covered_of(v.last(), p) {
            Some(c) => all_covered(v.drop_last(), p).push(c),
            None => all_covered(v.drop_last(), p),
        }
    }
}

/// The places that are held.
pub open spec fn held_places(p: Places) -> Option<Positions> {
    match p {
        Places::Held(p) => Some(p),
        _ => None,
    }
}

fn find_note(notes: &Vec<StoreNote>, id: &str) -> (r: Option<Note>)
    ensures
        note_model(r) == (if note_index(notes@, id@, 0) < notes@.len() {
            Some(notes@[note_index(notes@, id@, 0)].note@)
        } else {
            None
        }),
{
    let mut i: usize = 0;
    while i < notes.len()
        invariant
            i <= notes@.len(),
            note_index(notes@, id@, 0) == note_index(notes@, id@, i as int),
        decreases notes@.len() - i,
    {
        if same(notes[i].id.as_str(), id) {
            return Some(notes[i].note.copy());
        }
        i = i + 1;
    }
    None
}

fn cover_one(m: &Matched, places: &Places) -> (r: Option<Covered>)
    requires
        measurable(*m),
    ensures
        match r {
            Some(c) => covered_of(*m, held_places(*places)) == Some(c@),
            None => covered_of(*m, held_places(*places)) is None,
        },
{
    let id = match &m.id {
        Some(id) => id,
        None => {
            return None;
        },
    };
    let mut read = false;
    let mut chunk: Option<u64> = None;
    let mut wl: u64 = 0;
    let mut note: Option<Note> = None;
    if let Places::Held(p) = places {
        if let Some(at) = find_place(&p.at, id.as_str()) {
            read = true;
            chunk = at.chunk;
            wl = at.wl;
        }
        note = find_note(&p.notes, id.as_str());
    }
    let standing = match &m.records {
        Some(v) => Some(standing_at(chunk, wl, v.as_slice())),
        None => None,
    };
    Some(
        Covered {
            id: text(id.as_str()),
            path: joined_path(m.dir.as_str(), m.name.as_str()),
            standing,
            read,
            note,
        },
    )
}

/// Where a follower stands in each store that its selection matches, worst
/// first. A store without an identity is not covered: no place could name it.
pub fn cover(matched: &Vec<Matched>, places: &Places) -> (r: Vec<Covered>)
    requires
        forall|i: int| 0 <= i < matched@.len() ==> measurable(#[trigger] matched@[i]),
    ensures
        exists|v: Seq<Covered>|
            covered_models(v) == all_covered(matched@, held_places(*places)) && r@ == #[trigger]
                in_rank(v),
{
    let mut out: Vec<Covered> = Vec::new();
    let mut i: usize = 0;
    proof {
        assert(covered_models(out@) =~= Seq::empty());
        assert(matched@.take(0) =~= Seq::empty());
    }
    while i < matched.len()
        invariant
            i <= matched@.len(),
            forall|i: int| 0 <= i < matched@.len() ==> measurable(#[trigger] matched@[i]),
            covered_models(out@) == all_covered(
                matched@.take(i as int),
                held_places(*places),
            ),
        decreases matched@.len() - i,
    {
        proof {
            assert(matched@.take(i + 1).drop_last() =~= matched@.take(i as int));
        }
        if let Some(c) = cover_one(&matched[i], places) {
            let ghost was = out@;
            out.push(c);
            proof {
                assert(covered_models(out@) =~= covered_models(was).push(c@));
            }
        }
        i = i + 1;
    }
    proof {
        assert(matched@.take(i as int) =~= matched@);
    }
    let ghost all = out@;
    let r = rank_all(out);
    proof {
        assert(r@ == in_rank(all));
    }
    r
}

/// What a file turned out to hold.
#[derive(Clone, Debug, PartialEq, Eq)]
pub enum PositionsFile {
    Missing,
    Unreadable,
    Held(Positions),
}

/// What a cursor's file turned out to hold.
#[derive(Clone, Debug, PartialEq, Eq)]
pub enum CursorFile {
    Missing,
    Unreadable,
    Held(Cursor),
}

/// What a follower's places are. Without a positions file, a cursor that has
/// delivered something is the place in the one store that the declaration
/// names, and one that cannot be read leaves everything open.
pub open spec fn places_outcome(
    positions: PositionsFile,
    anchor: Option<&str>,
    cursor: CursorFile,
    r: Places,
) -> bool {
    match positions {
        PositionsFile::Held(p) => r == Places::Held(p),
        PositionsFile::Unreadable => r is Unreadable,
        PositionsFile::Missing => match cursor {
            CursorFile::Unreadable => r is Unreadable,
            CursorFile::Held(c) => if c.delivered > 0 && anchor is Some {
                r matches Places::Held(p) && p.consumer@ == c.consumer@ && p.notes@.len() == 0
                    && p.note is None && p.at@.len() == 1 && p.at@[0].id@ == anchor->Some_0@
                    && p.at@[0].path@ == c.path@ && p.at@[0].offset == 0 && p.at@[0].chunk == c.seq
                    && p.at@[0].wl == c.wl && p.at@[0].delivered == c.delivered
            } else {
                r is Never
            },
            CursorFile::Missing => r is Never,
        },
    }
}

/// A follower's places.
pub fn places_of(positions: PositionsFile, anchor: Option<&str>, cursor: CursorFile) -> (r: Places)
    ensures
        places_outcome(positions, anchor, cursor, r),
{
    match positions {
        PositionsFile::Held(p) => Places::Held(p),
        PositionsFile::Unreadable => Places::Unreadable,
        PositionsFile::Missing => match cursor {
            CursorFile::Unreadable => Places::Unreadable,
            CursorFile::Missing => Places::Never,
            CursorFile::Held(c) => match anchor {
                Some(id) => {
                    if c.delivered > 0 {
                        let mut at: Vec<StorePlace> = Vec::new();
                        at.push(
                            StorePlace {
                                id: text(id),
                                path: c.path,
                                offset: 0,
                                chunk: c.seq,
                                wl: c.wl,
                                delivered: c.delivered,
                            },
                        );
                        Places::Held(
                            Positions { consumer: c.consumer, at, notes: Vec::new(), note: None },
                        )
                    } else {
                        Places::Never
                    }
                },
                None => Places::Never,
            },
        },
    }
}

/// Where a cursor is carried into the places: the start of the chunk it stood
/// in, or of the oldest that is left, counted from the store's beginning. Up
/// to one chunk is delivered again.
pub open spec fn carried_offset(
    seq: Option<u64>,
    records: Seq<ChunkRecord>,
    dropped: u64,
    i: int,
) -> int
    decreases records.len() - i,
{
    if seq is Some && i < records.len() && records[i].seq == seq->Some_0 {
        dropped + records[i].uncomp_start
    } else if seq is Some && i < records.len() {
        carried_offset(seq, records, dropped, i + 1)
    } else if records.len() > 0 {
        dropped + records[0].uncomp_start
    } else {
        dropped as int
    }
}

/// The places that a cursor is carried into, if it is: a cursor that delivered
/// nothing has no place to carry.
pub fn migrate_cursor(
    c: &Cursor,
    anchor: &str,
    path: &str,
    records: &[ChunkRecord],
    dropped: u64,
) -> (r: Option<Positions>)
    requires
        forall|i: int|
            0 <= i < records@.len() ==> dropped + (#[trigger] records@[i]).uncomp_start
                <= u64::MAX,
    ensures
        r is None <==> c.delivered == 0,
        match r {
            Some(p) => p.consumer@ == c.consumer@ && p.notes@.len() == 0 && p.note is None
                && p.at@.len() == 1 && p.at@[0].id@ == anchor@ && p.at@[0].path@ == path@
                && p.at@[0].offset == carried_offset(c.seq, records@, dropped, 0) && p.at@[0].chunk
                == c.seq && p.at@[0].wl == c.wl && p.at@[0].delivered == c.delivered,
            None => true,
        },
{
    if c.delivered == 0 {
        return None;
    }
    let mut offset: u64 = if records.len() > 0 {
        dropped + records[0].uncomp_start
    } else {
        dropped
    };
    if let Some(seq) = c.seq {
        let mut i: usize = 0;
        let mut found = false;
        while !found && i < records.len()
            invariant
                i <= records@.len(),
                c.seq == Some(seq),
                forall|i: int|
                    0 <= i < records@.len() ==> dropped + (#[trigger] records@[i]).uncomp_start
                        <= u64::MAX,
                found ==> offset == carried_offset(c.seq, records@, dropped, 0),
                !found ==> carried_offset(c.seq, records@, dropped, 0) == carried_offset(
                    c.seq,
                    records@,
                    dropped,
                    i as int,
                ),
                !found ==> offset == (if records@.len() > 0 {
                    dropped + records@[0].uncomp_start
                } else {
                    dropped as int
                }),
            decreases
                    if found {
                        0int
                    } else {
                        records@.len() - i + 1
                    },
        {
            if records[i].seq == seq {
                offset = dropped + records[i].uncomp_start;
                found = true;
            } else {
                i = i + 1;
            }
        }
    }
    let mut at: Vec<StorePlace> = Vec::new();
    at.push(
        StorePlace {
            id: text(anchor),
            path: text(path),
            offset,
            chunk: c.seq,
            wl: c.wl,
            delivered: c.delivered,
        },
    );
    Some(
        Positions { consumer: text(c.consumer.as_str()), at, notes: Vec::new(), note: None },
    )
}

/// A follower that could not be read, and why.
#[derive(Clone, Debug, PartialEq, Eq)]
pub struct Broken {
    pub name: String,
    pub why: String,
}

/// What the registry holds, read: every follower that it could account for,
/// and every directory that it could not. A broken one is told, because the
/// registry is the only place where it can be discovered.
#[derive(Debug, Clone)]
pub struct Registry {
    pub followers: Vec<Registered>,
    pub broken: Vec<Broken>,
}

/// Those that could be read.
pub open spec fn readable(v: Seq<Result<Registered, Broken>>) -> Seq<Registered>
    decreases v.len(),
{
    if v.len() == 0 {
        Seq::empty()
    } else {
        match v.last() {
            Ok(r) => readable(v.drop_last()).push(r),
            Err(_) => readable(v.drop_last()),
        }
    }
}

/// Those that could not.
pub open spec fn unreadable(v: Seq<Result<Registered, Broken>>) -> Seq<Broken>
    decreases v.len(),
{
    if v.len() == 0 {
        Seq::empty()
    } else {
        match v.last() {
            Ok(_) => unreadable(v.drop_last()),
            Err(b) => unreadable(v.drop_last()).push(b),
        }
    }
}

/// What reading each follower came to, told apart.
pub fn read_all(read: Vec<Result<Registered, Broken>>) -> (r: Registry)
    ensures
        r.followers@ == readable(read@),
        r.broken@ == unreadable(read@),
{
    let ghost all = read@;
    let mut followers: Vec<Registered> = Vec::new();
    let mut broken: Vec<Broken> = Vec::new();
    proof {
        assert(followers@ =~= Seq::empty());
        assert(broken@ =~= Seq::empty());
    }
    for one in it: read
        invariant
            it.seq() == all,
            followers@ == readable(all.take(it.index() as int)),
            broken@ == unreadable(all.take(it.index() as int)),
    {
        proof {
            let k = it.index() as int;
            assert(all.take(k + 1).drop_last() =~= all.take(k));
            assert(all.take(k + 1).last() == one);
        }
        match one {
            Ok(r) => {
                followers.push(r);
            },
            Err(b) => {
                broken.push(b);
            },
        }
    }
    proof {
        assert(all.take(all.len() as int) =~= all);
    }
    Registry { followers, broken }
}

} // verus!
