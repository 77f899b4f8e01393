//! A consumer's durable position in a store's entry stream.
//!
//! Kept outside the store, at a path the operator names: a cursor is consumer
//! state, not store state. The position is a chunk number, the only axis that
//! cannot move backwards, plus how many entries of that chunk were already
//! delivered.
//!
//! An entry from the live edge carries no chunk number, because its chunk does
//! not exist yet. It is delivered and counted, but the position does not move:
//! there is nowhere inside a chunk that has not been written to resume from.
//! Delivery is therefore at-least-once.

use crate::bark::{manifest_view, ManifestModel};
use crate::format::ChunkRecord;
use crate::json::{text_in, whole_in, Fields, Json, JsonModel};
use crate::paths::{join, joined_path};
use crate::rank::{
    ahead, is_ahead, lemma_place_is, lemma_place_keeps_ranked, place, ranked, Rank, RankModel,
};
use crate::text::{same, text};
use vstd::prelude::*;
use vstd::string::StringExecFns;

verus! {

/// One consumer's position, as persisted. The file is a flat JSON object so an
/// operator can rewind by editing `seq`; but it is machine-owned state:
/// unknown keys are ignored, not preserved.
#[derive(Clone, Debug, PartialEq, Eq)]
pub struct Cursor {
    /// Who wrote it, for the operator staring at a state directory.
    pub consumer: String,
    /// What the store this is a position in is identified by.
    pub store: String,
    /// The store's path when last written; informational only.
    pub path: String,
    /// The chunk this consumer stands in. `None` on a cursor written before
    /// chunk numbers existed, which `resolve` converts, and on one that has
    /// never delivered anything.
    pub seq: Option<u64>,
    /// Entries already delivered from chunk `seq`.
    pub n: u64,
    /// The write time of the newest entry delivered. It decides nothing; `seq`
    /// is the position. On a cursor from before the numbering it is the only
    /// position there is, and `resolve` reads it once.
    pub wl: u64,
    /// Total entries delivered by this consumer, for observability.
    pub delivered: u64,
}

/// What a cursor is.
pub struct CursorModel {
    pub consumer: Seq<char>,
    pub store: Seq<char>,
    pub path: Seq<char>,
    pub seq: Option<u64>,
    pub n: u64,
    pub wl: u64,
    pub delivered: u64,
}

impl View for Cursor {
    type V = CursorModel;

    open spec fn view(&self) -> CursorModel {
        CursorModel {
            consumer: self.consumer@,
            store: self.store@,
            path: self.path@,
            seq: self.seq,
            n: self.n,
            wl: self.wl,
            delivered: self.delivered,
        }
    }
}

/// Why a text is not a cursor, or not one for this store.
#[derive(Clone, Debug, PartialEq, Eq)]
pub enum CursorError {
    /// The file that is not a JSON object.
    NotAnObject(String),
    /// The file that names no store.
    NoStore(String),
    /// The file, the store that it is for, that store's path, and the store
    /// that is there.
    OtherStore { file: String, store: String, path: String, id: String },
}

impl CursorError {
    /// What the error says.
    pub open spec fn said(self) -> Seq<char> {
        match self {
            CursorError::NotAnObject(file) => file@
                + " is not a JSON object (delete it to start over)"@,
            CursorError::NoStore(file) => file@
                + " has no \"store\" id — it is not a timberfs cursor"@,
            CursorError::OtherStore { file, store, path, id } => file@ + " is a cursor for store "@
                + store@ + " but "@ + path@ + " is store "@ + id@
                + " — delete the cursor to start over, or point --cursor elsewhere"@,
        }
    }

    /// What the error says.
    pub fn message(&self) -> (r: String)
        ensures
            r@ == self.said(),
    {
        match self {
            CursorError::NotAnObject(file) => text(file.as_str()).concat(
                " is not a JSON object (delete it to start over)",
            ),
            CursorError::NoStore(file) => text(file.as_str()).concat(
                " has no \"store\" id — it is not a timberfs cursor",
            ),
            CursorError::OtherStore { file, store, path, id } => text(file.as_str()).concat(
                " is a cursor for store ",
            ).concat(store.as_str()).concat(" but ").concat(path.as_str()).concat(
                " is store ",
            ).concat(id.as_str()).concat(
                " — delete the cursor to start over, or point --cursor elsewhere",
            ),
        }
    }
}

pub open spec fn text_or_empty(m: ManifestModel, key: Seq<char>) -> Seq<char> {
    match text_in(m, key) {
        Some(s) => s,
        None => Seq::empty(),
    }
}

pub open spec fn whole_or_zero(m: ManifestModel, key: Seq<char>) -> u64 {
    match whole_in(m, key) {
        Some(n) => n,
        None => 0,
    }
}

/// The cursor that a JSON object is: nothing where it names no store. What is
/// not there, or not of its kind, reads as empty, as zero or as no position.
pub open spec fn cursor_of(m: ManifestModel) -> Option<CursorModel> {
    if text_or_empty(m, "store"@).len() == 0 {
        None
    } else {
        Some(
            CursorModel {
                consumer: text_or_empty(m, "consumer"@),
                store: text_or_empty(m, "store"@),
                path: text_or_empty(m, "path"@),
                seq: whole_in(m, "seq"@),
                n: whole_or_zero(m, "n"@),
                wl: whole_or_zero(m, "wl"@),
                delivered: whole_or_zero(m, "delivered"@),
            },
        )
    }
}

/// The JSON object that a cursor is written as.
pub open spec fn cursor_fields(c: CursorModel, updated: Seq<char>) -> ManifestModel {
    Map::<Seq<char>, JsonModel>::empty().insert("consumer"@, JsonModel::Text(c.consumer)).insert(
        "store"@,
        JsonModel::Text(c.store),
    ).insert("path"@, JsonModel::Text(c.path)).insert(
        "seq"@,
        match c.seq {
            Some(seq) => JsonModel::Whole(seq),
            None => JsonModel::Null,
        },
    ).insert("n"@, JsonModel::Whole(c.n)).insert("wl"@, JsonModel::Whole(c.wl)).insert(
        "delivered"@,
        JsonModel::Whole(c.delivered),
    ).insert("updated"@, JsonModel::Text(updated))
}

fn text_at_or_empty(map: &Fields, key: &str) -> (r: String)
    ensures
        r@ == text_or_empty(map@, key@),
{
    match map.text_at(key) {
        Some(s) => s,
        None => {
            let s = String::new();
            assert(s@ =~= Seq::empty());
            s
        },
    }
}

fn whole_at_or_zero(map: &Fields, key: &str) -> (r: u64)
    ensures
        r == whole_or_zero(map@, key@),
{
    match map.whole_at(key) {
        Some(n) => n,
        None => 0,
    }
}

/// What delivering one entry does to a position.
pub open spec fn advanced(c: CursorModel, chunk: Option<u64>, wl: u64) -> CursorModel {
    let counted = CursorModel { delivered: (c.delivered + 1) as u64, wl, ..c };
    match chunk {
        None => counted,
        Some(seq) => CursorModel {
            seq: chunk,
            n: if c.seq == chunk {
                (c.n + 1) as u64
            } else {
                1
            },
            ..counted
        },
    }
}

/// The first record whose window reaches `wl`; their number where none does.
pub open spec fn first_reaching(records: Seq<ChunkRecord>, wl: u64) -> int
    decreases records.len(),
{
    if records.len() == 0 || records[0].last_write_ms >= wl {
        0
    } else {
        1 + first_reaching(records.drop_first(), wl)
    }
}

/// The chunk that a write time resolves to: the first whose window reaches it,
/// else the one after the newest; nothing where there is no chunk at all.
pub open spec fn resolved_seq(records: Seq<ChunkRecord>, wl: u64) -> Option<u64> {
    let k = first_reaching(records, wl);
    if k < records.len() {
        Some(records[k].seq)
    } else if records.len() > 0 {
        Some((records.last().seq + 1) as u64)
    } else {
        None
    }
}

/// A cursor once it is resolved: one with a position as it is, one without at
/// the start of the chunk that its write time resolves to.
pub open spec fn resolved(c: CursorModel, records: Seq<ChunkRecord>) -> CursorModel {
    if c.seq is Some || resolved_seq(records, c.wl) is None {
        c
    } else {
        CursorModel { seq: resolved_seq(records, c.wl), n: 0, ..c }
    }
}

proof fn lemma_first_reaching(records: Seq<ChunkRecord>, wl: u64, k: int)
    requires
        0 <= k <= records.len(),
        forall|i: int| 0 <= i < k ==> (#[trigger] records[i]).last_write_ms < wl,
        k < records.len() ==> records[k].last_write_ms >= wl,
    ensures
        first_reaching(records, wl) == k,
    decreases k,
{
    if k > 0 {
        let t = records.drop_first();
        assert(records[0].last_write_ms < wl);
        assert forall|i: int| 0 <= i < k - 1 implies (#[trigger] t[i]).last_write_ms < wl by {
            assert(t[i] == records[i + 1]);
        }
        lemma_first_reaching(t, wl, k - 1);
    }
}

impl Cursor {
    /// A cursor that has delivered nothing.
    pub fn new(consumer: &str, store: &str, path: &str) -> (c: Cursor)
        ensures
            c@ == (CursorModel {
                consumer: consumer@,
                store: store@,
                path: path@,
                seq: None,
                n: 0,
                wl: 0,
                delivered: 0,
            }),
    {
        Cursor {
            consumer: text(consumer),
            store: text(store),
            path: text(path),
            seq: None,
            n: 0,
            wl: 0,
            delivered: 0,
        }
    }

    /// The cursor that a JSON object is, or why it is none. `file` is where it
    /// was read. Never silently a fresh one, which would re-ship the store.
    pub fn from_fields(fields: Option<&Fields>, file: &str) -> (r: Result<Cursor, CursorError>)
        ensures
            match r {
                Ok(c) => fields is Some && cursor_of(fields->Some_0@) == Some(c@),
                Err(CursorError::NotAnObject(f)) => fields is None && f@ == file@,
                Err(CursorError::NoStore(f)) => fields is Some && cursor_of(
                    fields->Some_0@,
                ) is None && f@ == file@,
                Err(_) => false,
            },
    {
        let map = match fields {
            Some(map) => map,
            None => return Err(CursorError::NotAnObject(text(file))),
        };
        let store = text_at_or_empty(map, "store");
        if store.as_str().is_empty() {
            return Err(CursorError::NoStore(text(file)));
        }
        Ok(
            Cursor {
                consumer: text_at_or_empty(map, "consumer"),
                store,
                path: text_at_or_empty(map, "path"),
                seq: map.whole_at("seq"),
                n: whole_at_or_zero(map, "n"),
                wl: whole_at_or_zero(map, "wl"),
                delivered: whole_at_or_zero(map, "delivered"),
            },
        )
    }

    /// The cursor that a file's content is, or why it is none.
    pub fn load(content: &str, file: &str) -> (r: Result<Cursor, CursorError>)
        ensures
            ({
                let object = crate::json::json_object(content@);
                match r {
                    Ok(c) => object is Some && cursor_of(
                        crate::json::fields_map(object->Some_0),
                    ) == Some(c@),
                    Err(CursorError::NotAnObject(f)) => object is None && f@ == file@,
                    Err(CursorError::NoStore(f)) => object is Some && cursor_of(
                        crate::json::fields_map(object->Some_0),
                    ) is None && f@ == file@,
                    Err(_) => false,
                }
            }),
    {
        match Fields::parse(content) {
            Some(map) => Cursor::from_fields(Some(&map), file),
            None => Cursor::from_fields(None, file),
        }
    }

    /// The JSON object that the cursor is written as; `updated` is the time.
    pub fn to_fields(&self, updated: &str) -> (r: Fields)
        ensures
            r@ == cursor_fields(self@, updated@),
    {
        let mut map = Fields::new();
        map.insert("consumer", Json::Text(text(self.consumer.as_str())));
        map.insert("store", Json::Text(text(self.store.as_str())));
        map.insert("path", Json::Text(text(self.path.as_str())));
        match self.seq {
            Some(seq) => map.insert("seq", Json::Whole(seq)),
            None => map.insert("seq", Json::Null),
        }
        map.insert("n", Json::Whole(self.n));
        map.insert("wl", Json::Whole(self.wl));
        map.insert("delivered", Json::Whole(self.delivered));
        map.insert("updated", Json::Text(text(updated)));
        map
    }

    /// A cursor is a position in one store: a mismatch means the path now
    /// holds a different store, where resuming would deliver arbitrary data.
    pub fn check_store(&self, id: &str, file: &str) -> (r: Result<(), CursorError>)
        ensures
            match r {
                Ok(_) => self.store@ == id@,
                Err(CursorError::OtherStore { file: f, store, path, id: got }) => self.store@ != id@
                    && f@ == file@ && store@ == self.store@ && path@ == self.path@ && got@ == id@,
                Err(_) => false,
            },
    {
        if same(self.store.as_str(), id) {
            return Ok(());
        }
        Err(
            CursorError::OtherStore {
                file: text(file),
                store: text(self.store.as_str()),
                path: text(self.path.as_str()),
                id: text(id),
            },
        )
    }

    /// Count one delivered entry. `chunk` is `None` for an entry read from the
    /// live edge: it is counted, and `wl` follows it, but the position does
    /// not move.
    pub fn advance(&mut self, chunk: Option<u64>, wl: u64)
        requires
            old(self).delivered < u64::MAX,
            chunk is Some && old(self).seq == chunk ==> old(self).n < u64::MAX,
        ensures
            final(self)@ == advanced(old(self)@, chunk, wl),
    {
        self.delivered = self.delivered + 1;
        self.wl = wl;
        if let Some(seq) = chunk {
            let here: bool = match self.seq {
                Some(s) => s == seq,
                None => false,
            };
            if !here {
                self.seq = Some(seq);
                self.n = 0;
            }
            self.n = self.n + 1;
        }
    }

    /// Convert a cursor from before the numbering: resolve its write time to a
    /// chunk, and start at that chunk's beginning. `n` is deliberately reset:
    /// it counted entries within a write window, so carrying it over could
    /// skip entries nobody received.
    pub fn resolve(&mut self, records: &[ChunkRecord]) -> (r: Option<u64>)
        requires
            old(self).seq is None && records@.len() > 0 ==> records@.last().seq < u64::MAX,
        ensures
            final(self)@ == resolved(old(self)@, records@),
            r == final(self).seq,
    {
        if self.seq.is_some() {
            return self.seq;
        }
        let mut k: usize = 0;
        while k < records.len() && records[k].last_write_ms < self.wl
            invariant
                k <= records@.len(),
                forall|i: int| 0 <= i < k ==> (#[trigger] records@[i]).last_write_ms < self.wl,
            decreases records@.len() - k,
        {
            k = k + 1;
        }
        proof {
            lemma_first_reaching(records@, self.wl, k as int);
        }
        let seq: u64 = if k < records.len() {
            records[k].seq
        } else if records.len() > 0 {
            // Past everything the store holds: start after the newest, so
            // nothing already delivered is re-sent.
            records[records.len() - 1].seq + 1
        } else {
            return None;
        };
        self.seq = Some(seq);
        self.n = 0;
        Some(seq)
    }

    /// Should this cursor be converted at all, and to what? `None` is nothing
    /// to do, `Some(Err(()))` needed converting but had no chunks to resolve
    /// against yet. A cursor with no `seq` and nothing delivered is new: its
    /// `wl` is a default rather than a position.
    pub fn resolve_if_pre_numbering(&mut self, records: &[ChunkRecord]) -> (r: Option<
        Result<u64, ()>,
    >)
        requires
            old(self).seq is None && old(self).delivered > 0 && records@.len() > 0
                ==> records@.last().seq < u64::MAX,
        ensures
            old(self).seq is Some || old(self).delivered == 0 ==> r is None && final(self)@ == old(
                self,
            )@,
            old(self).seq is None && old(self).delivered > 0 ==> {
                &&& final(self)@ == resolved(old(self)@, records@)
                &&& r == Some(
                    match resolved_seq(records@, old(self).wl) {
                        Some(seq) => Ok::<u64, ()>(seq),
                        None => Err(()),
                    },
                )
            },
    {
        if self.seq.is_some() || self.delivered == 0 {
            return None;
        }
        match self.resolve(records) {
            Some(seq) => Some(Ok(seq)),
            None => Some(Err(())),
        }
    }
}

/// A cursor that was written reads back as the cursor it was.
pub proof fn a_cursor_round_trips(c: CursorModel, updated: Seq<char>)
    requires
        c.store.len() > 0,
    ensures
        cursor_of(cursor_fields(c, updated)) == Some(c),
{
    reveal_strlit("consumer");
    reveal_strlit("store");
    reveal_strlit("path");
    reveal_strlit("seq");
    reveal_strlit("n");
    reveal_strlit("wl");
    reveal_strlit("delivered");
    reveal_strlit("updated");
    assert("delivered"@.len() == 9 && "consumer"@.len() == 8 && "updated"@.len() == 7
        && "store"@.len() == 5 && "path"@.len() == 4 && "seq"@.len() == 3 && "wl"@.len() == 2
        && "n"@.len() == 1);
}

/// Resolving is idempotent: a resolved cursor resolves to itself, against
/// whatever the store holds by then.
pub proof fn resolving_twice_is_resolving_once(
    c: CursorModel,
    records: Seq<ChunkRecord>,
    later: Seq<ChunkRecord>,
)
    requires
        resolved(c, records).seq is Some,
    ensures
        resolved(resolved(c, records), later) == resolved(c, records),
{
}

/// An entry from the live edge is counted and moves nothing.
pub proof fn the_live_edge_moves_nothing(c: CursorModel, wl: u64)
    ensures
        advanced(c, None, wl).seq == c.seq,
        advanced(c, None, wl).n == c.n,
{
}

// ------------------------------------------------------------------- resume

/// Skips what a resumed stream re-delivers. Seeking is to a whole chunk, so
/// the first chunk of a resumed stream is re-read from its start; this drops
/// the entries inside it the cursor says were already delivered, and then gets
/// out of the way for good.
pub struct Resume {
    at: Option<(u64, u64)>,
    seen_in_chunk: u64,
    skipped: u64,
    done: bool,
}

/// What a resume has left to skip.
pub struct ResumeModel {
    /// The chunk and the count that the cursor stands at.
    pub at: Option<(u64, u64)>,
    pub seen_in_chunk: u64,
    pub skipped: u64,
    pub done: bool,
}

impl View for Resume {
    type V = ResumeModel;

    closed spec fn view(&self) -> ResumeModel {
        ResumeModel {
            at: self.at,
            seen_in_chunk: self.seen_in_chunk,
            skipped: self.skipped,
            done: self.done,
        }
    }
}

pub open spec fn resume_of(cursor: Option<CursorModel>) -> ResumeModel {
    ResumeModel {
        at: match cursor {
            Some(c) => match c.seq {
                Some(seq) => Some((seq, c.n)),
                None => None,
            },
            None => None,
        },
        seen_in_chunk: 0,
        skipped: 0,
        done: false,
    }
}

/// Whether an entry of the given chunk was already delivered.
pub open spec fn already_delivered(r: ResumeModel, chunk: Option<u64>) -> bool {
    !r.done && r.at is Some && chunk is Some && (chunk->Some_0 < r.at->Some_0.0 || (chunk->Some_0
        == r.at->Some_0.0 && r.seen_in_chunk < r.at->Some_0.1))
}

/// What seeing an entry does to a resume.
pub open spec fn after_entry(r: ResumeModel, chunk: Option<u64>) -> ResumeModel {
    if already_delivered(r, chunk) {
        ResumeModel {
            skipped: (r.skipped + 1) as u64,
            seen_in_chunk: if chunk->Some_0 == r.at->Some_0.0 {
                (r.seen_in_chunk + 1) as u64
            } else {
                r.seen_in_chunk
            },
            ..r
        }
    } else {
        ResumeModel { done: true, ..r }
    }
}

pub open spec fn cursor_view(c: Option<&Cursor>) -> Option<CursorModel> {
    match c {
        Some(c) => Some(c@),
        None => None,
    }
}

impl Resume {
    pub fn new(cursor: Option<&Cursor>) -> (r: Resume)
        ensures
            r@ == resume_of(cursor_view(cursor)),
    {
        let at: Option<(u64, u64)> = match cursor {
            Some(c) => match c.seq {
                Some(seq) => Some((seq, c.n)),
                None => None,
            },
            None => None,
        };
        Resume { at, seen_in_chunk: 0, skipped: 0, done: false }
    }

    /// Should this entry be delivered? Chunk numbers only move forward, so
    /// this is an ordinary comparison. `None` is the live edge, which is by
    /// construction newer than every chunk: always delivered.
    pub fn deliver(&mut self, chunk: Option<u64>) -> (r: bool)
        requires
            old(self)@.skipped < u64::MAX,
        ensures
            r == !already_delivered(old(self)@, chunk),
            final(self)@ == after_entry(old(self)@, chunk),
    {
        if self.done {
            return true;
        }
        let (cseq, n) = match self.at {
            Some(at) => at,
            None => {
                self.done = true;
                return true;
            },
        };
        let seq: u64 = match chunk {
            Some(seq) => seq,
            None => {
                self.done = true;
                return true;
            },
        };
        if seq < cseq {
            self.skipped = self.skipped + 1;
            return false;
        }
        if seq == cseq && self.seen_in_chunk < n {
            self.seen_in_chunk = self.seen_in_chunk + 1;
            self.skipped = self.skipped + 1;
            return false;
        }
        self.done = true;
        true
    }

    /// How many already-delivered entries this resume dropped: the cost of
    /// chunk-granular positioning, worth reporting once.
    pub fn skipped(&self) -> (n: u64)
        ensures
            n == self@.skipped,
    {
        self.skipped
    }
}

/// Once past the cursor, nothing is ever dropped again.
pub proof fn a_later_chunk_ends_the_skipping_for_good(r: ResumeModel, chunk: Option<u64>)
    requires
        r.done,
    ensures
        !already_delivered(r, chunk),
        after_entry(r, chunk) == r,
{
}

// ----------------------------------------------------------------- consumed

/// How many records at the head are numbered below `seq`.
pub open spec fn leading_below(records: Seq<ChunkRecord>, seq: u64) -> int
    decreases records.len(),
{
    if records.len() == 0 || records[0].seq >= seq {
        0
    } else {
        1 + leading_below(records.drop_first(), seq)
    }
}

pub proof fn lemma_leading_below(records: Seq<ChunkRecord>, seq: u64)
    ensures
        0 <= leading_below(records, seq) <= records.len(),
        forall|i: int| 0 <= i < leading_below(records, seq) ==> (#[trigger] records[i]).seq < seq,
        leading_below(records, seq) < records.len() ==> records[leading_below(records, seq)].seq
            >= seq,
    decreases records.len(),
{
    if records.len() > 0 && records[0].seq < seq {
        let t = records.drop_first();
        lemma_leading_below(t, seq);
        assert forall|i: int| 0 <= i < leading_below(records, seq) implies (
        #[trigger] records[i]).seq < seq by {
            if i > 0 {
                assert(records[i] == t[i - 1]);
            }
        }
    }
}

/// How many head chunks a position has fully consumed.
pub open spec fn consumed(records: Seq<ChunkRecord>, seq: Option<u64>) -> int {
    match seq {
        Some(s) => leading_below(records, s),
        None => 0,
    }
}

/// How many head chunks a cursor has fully consumed: the exact complement of
/// what `Resume` would deliver, since anything it would hand over must still
/// exist. The cursor's own chunk is not counted: `n` counts inside it and a
/// resume re-reads it from the start. A cursor with no position yet has
/// consumed nothing.
pub fn consumed_prefix(records: &[ChunkRecord], seq: Option<u64>) -> (k: usize)
    ensures
        k == consumed(records@, seq),
        k <= records@.len(),
{
    let s: u64 = match seq {
        Some(s) => s,
        None => return 0,
    };
    let mut k: usize = 0;
    while k < records.len() && records[k].seq < s
        invariant
            k <= records@.len(),
            forall|i: int| 0 <= i < k ==> (#[trigger] records@[i]).seq < s,
        decreases records@.len() - k,
    {
        k = k + 1;
    }
    proof {
        lemma_leading_below(records@, s);
        let want = leading_below(records@, s);
        if want < k {
            assert(records@[want].seq < s);
        }
        if k < want {
            assert(records@[k as int].seq < s);
        }
    }
    k
}

/// The drop rule is the complement of the resume rule: every entry of a chunk
/// that a position has consumed is one that a resume from that position skips,
/// for as long as it skips at all.
pub proof fn resume_never_delivers_from_a_consumed_chunk(
    c: CursorModel,
    records: Seq<ChunkRecord>,
    i: int,
    r: ResumeModel,
)
    requires
        0 <= i < consumed(records, c.seq),
        r.at == resume_of(Some(c)).at,
        !r.done,
    ensures
        already_delivered(r, Some(records[i].seq)),
{
    lemma_leading_below(records, c.seq->Some_0);
}

/// Whether the records are numbered upwards.
pub open spec fn numbered(records: Seq<ChunkRecord>) -> bool {
    forall|i: int, j: int| 0 <= i < j < records.len() ==> (#[trigger] records[i]).seq < (
    #[trigger] records[j]).seq
}

/// Where the records are numbered upwards, the consumed ones are exactly those
/// numbered below the position, wherever a head-drop left the numbering.
pub proof fn consumed_counts_numbers_not_positions(records: Seq<ChunkRecord>, seq: u64, i: int)
    requires
        numbered(records),
        0 <= i < records.len(),
    ensures
        i < consumed(records, Some(seq)) <==> records[i].seq < seq,
{
    lemma_leading_below(records, seq);
    let k = leading_below(records, seq);
    if i >= k && records[i].seq < seq {
        if k < i {
            assert(records[k].seq < records[i].seq);
        }
    }
}

// ----------------------------------------------------------------- standing

/// Where one consumer stands in a store: what it has consumed, what it is
/// still holding, and whether retention has already outrun it.
#[derive(Clone, Copy, Debug, PartialEq, Eq, Structural)]
pub struct Standing {
    /// Head chunks fully consumed.
    pub consumed_chunks: usize,
    /// Chunks from the cursor's own chunk to the end of the store.
    pub behind_chunks: usize,
    /// Compressed bytes over that same range.
    pub behind_bytes: u64,
    /// Write-axis distance from the cursor to the store's newest write.
    pub behind_ms: u64,
    /// How many chunks were dropped between this cursor's position and the
    /// oldest the store still holds: an exact count. Only a cursor with a
    /// position can gap.
    pub gap_chunks: Option<u64>,
}

/// The newest write of a store.
pub open spec fn newest(records: Seq<ChunkRecord>) -> u64
    decreases records.len(),
{
    if records.len() == 0 {
        0
    } else {
        let rest = newest(records.drop_last());
        if records.last().last_write_ms > rest {
            records.last().last_write_ms
        } else {
            rest
        }
    }
}

pub open spec fn less_or_zero(a: int, b: int) -> u64 {
    if a > b {
        (a - b) as u64
    } else {
        0
    }
}

/// Where a position stands in a store.
pub open spec fn stands(seq: Option<u64>, wl: u64, records: Seq<ChunkRecord>) -> Standing {
    let k = consumed(records, seq);
    Standing {
        consumed_chunks: k as usize,
        behind_chunks: (records.len() - k) as usize,
        behind_bytes: if k < records.len() {
            less_or_zero(
                records.last().comp_start + records.last().comp_len,
                records[k].comp_start as int,
            )
        } else {
            0
        },
        behind_ms: less_or_zero(newest(records) as int, wl as int),
        gap_chunks: if seq is Some && records.len() > 0 && seq->Some_0 < records[0].seq {
            Some((records[0].seq - seq->Some_0) as u64)
        } else {
            None
        },
    }
}

fn minus(a: u64, b: u64) -> (r: u64)
    ensures
        r == less_or_zero(a as int, b as int),
{
    if a > b {
        a - b
    } else {
        0
    }
}

/// Where a position stands in a store. Windows are only mostly sorted, so the
/// newest write is scanned for.
pub fn standing_at(seq: Option<u64>, wl: u64, records: &[ChunkRecord]) -> (r: Standing)
    requires
        records@.len() > 0 ==> records@.last().comp_start + records@.last().comp_len <= u64::MAX,
    ensures
        r == stands(seq, wl, records@),
{
    let consumed_chunks: usize = consumed_prefix(records, seq);
    let size: usize = records.len();
    let behind_bytes: u64 = if consumed_chunks < size {
        minus(records[size - 1].comp_end(), records[consumed_chunks].comp_start)
    } else {
        0
    };
    let mut top: u64 = 0;
    let mut i: usize = 0;
    assert(records@.take(0) =~= Seq::empty());
    while i < size
        invariant
            i <= size,
            size == records@.len(),
            top == newest(records@.take(i as int)),
        decreases size - i,
    {
        proof {
            assert(records@.take(i + 1).drop_last() =~= records@.take(i as int));
            assert(records@.take(i + 1).last() == records@[i as int]);
        }
        if records[i].last_write_ms > top {
            top = records[i].last_write_ms;
        }
        i = i + 1;
    }
    assert(records@.take(i as int) =~= records@);
    let gap_chunks: Option<u64> = match seq {
        Some(s) => if size > 0 && s < records[0].seq {
            Some(records[0].seq - s)
        } else {
            None
        },
        None => None,
    };
    Standing {
        consumed_chunks,
        behind_chunks: size - consumed_chunks,
        behind_bytes,
        behind_ms: minus(top, wl),
        gap_chunks,
    }
}

/// Where a cursor stands in a store.
pub fn standing(c: &Cursor, records: &[ChunkRecord]) -> (r: Standing)
    requires
        records@.len() > 0 ==> records@.last().comp_start + records@.last().comp_len <= u64::MAX,
    ensures
        r == stands(c.seq, c.wl, records@),
{
    standing_at(c.seq, c.wl, records)
}

impl Standing {
    /// Whether nothing is left to read.
    pub fn caught_up(&self) -> (r: bool)
        ensures
            r == (self.behind_chunks == 0),
    {
        self.behind_chunks == 0
    }

    /// Nothing newer than this consumer's position exists in the store.
    /// Distinct from `caught_up`: a consumer keeping up with a live store
    /// always sits inside the newest chunk, never past it.
    pub fn at_live_edge(&self) -> (r: bool)
        ensures
            r == (self.behind_ms == 0),
    {
        self.behind_ms == 0
    }

    /// How far behind, in one phrase.
    pub open spec fn lag(self, distance: Seq<char>) -> Seq<char> {
        if self.gap_chunks is Some {
            "GAP"@
        } else if self.behind_chunks == 0 {
            "caught up"@
        } else if self.behind_ms == 0 {
            "at the live edge"@
        } else {
            distance + " behind"@
        }
    }

    /// How far behind, in one phrase; `distance` is how `behind_ms` reads as a
    /// duration. A gap outranks a distance: once the position is gone, how far
    /// behind it was is no longer the fact that matters.
    pub fn lag_text(&self, distance: &str) -> (r: String)
        ensures
            r@ == self.lag(distance@),
    {
        if self.gap_chunks.is_some() {
            text("GAP")
        } else if self.caught_up() {
            text("caught up")
        } else if self.at_live_edge() {
            text("at the live edge")
        } else {
            text(distance).concat(" behind")
        }
    }
}

// ------------------------------------------------------------------- survey

/// What a cursor for a store anchors to: the identity that its manifest
/// declares, else the path.
pub open spec fn anchor_of(manifest: Option<ManifestModel>, dir: Seq<char>, name: Seq<char>) -> Seq<
    char,
> {
    match (match manifest {
        Some(m) => text_in(m, "id"@),
        None => None,
    }) {
        Some(id) => id,
        None => "path:"@ + join(dir, name),
    }
}

/// What a cursor for the store `name` in `dir` anchors to: identity, so a
/// moved store still matches and a different store at the same path does not,
/// else the path, since a store written by a plain append has no manifest to
/// ask. `dir` is the directory as the file system resolves it.
pub fn store_anchor(dir: &str, name: &str, bark: Option<&Fields>) -> (r: String)
    ensures
        r@ == anchor_of(manifest_view(bark), dir@, name@),
{
    let id = match bark {
        Some(m) => m.text_at("id"),
        None => None,
    };
    match id {
        Some(id) => id,
        None => text("path:").concat(joined_path(dir, name).as_str()),
    }
}

/// The directory a manifest declares its consumers keep cursors in.
pub open spec fn cursors_of(manifest: Option<ManifestModel>) -> Option<Seq<char>> {
    match manifest {
        Some(m) => match text_in(m, "cursors"@) {
            Some(s) => if s.len() > 0 {
                Some(s)
            } else {
                None
            },
            None => None,
        },
        None => None,
    }
}

/// The directory a store declares its consumers keep cursors in. Declared, not
/// discovered: the store names the place to look and nothing ever writes back
/// into it.
pub fn declared_dir(bark: Option<&Fields>) -> (r: Option<String>)
    ensures
        match r {
            Some(s) => cursors_of(manifest_view(bark)) == Some(s@),
            None => cursors_of(manifest_view(bark)) is None,
        },
{
    match bark {
        Some(m) => match m.text_at("cursors") {
            Some(s) => if s.as_str().is_empty() {
                None
            } else {
                Some(s)
            },
            None => None,
        },
        None => None,
    }
}

/// One consumer of a store, as a view renders it.
#[derive(Clone, Debug, PartialEq, Eq)]
pub struct Consumer {
    /// Who: the cursor's own `consumer`, falling back to its file name for a
    /// hand-written cursor that names nobody.
    pub name: String,
    pub path: String,
    pub cursor: Cursor,
    pub standing: Standing,
}

/// What a consumer is.
pub struct ConsumerModel {
    pub name: Seq<char>,
    pub path: Seq<char>,
    pub cursor: CursorModel,
    pub standing: Standing,
}

impl View for Consumer {
    type V = ConsumerModel;

    open spec fn view(&self) -> ConsumerModel {
        ConsumerModel {
            name: self.name@,
            path: self.path@,
            cursor: self.cursor@,
            standing: self.standing,
        }
    }
}

pub open spec fn consumer_models(v: Seq<Consumer>) -> Seq<ConsumerModel> {
    Seq::new(v.len(), |i: int| v[i]@)
}

/// What a consumer is ranked by: furthest behind first, then by name.
pub open spec fn consumer_rank(c: ConsumerModel) -> RankModel {
    RankModel { first: (u64::MAX - c.standing.behind_bytes) as u64, second: 0, name: c.name }
}

pub open spec fn consumer_ranks(v: Seq<ConsumerModel>) -> Seq<RankModel> {
    Seq::new(v.len(), |i: int| consumer_rank(v[i]))
}

/// A file found in the declared directory: nothing there any more, something
/// that is no cursor, or a cursor.
pub struct Found {
    pub path: String,
    /// The file's name without its extension.
    pub stem: String,
    pub outcome: Result<Option<Cursor>, CursorError>,
}

/// The consumer that a file is: one whose cursor is a position in the store.
pub open spec fn consumer_of(f: Found, anchor: Seq<char>, records: Seq<ChunkRecord>) -> Option<
    ConsumerModel,
> {
    match f.outcome {
        Ok(Some(c)) => if c.store@ == anchor {
            Some(
                ConsumerModel {
                    name: if c.consumer@.len() == 0 {
                        f.stem@
                    } else {
                        c.consumer@
                    },
                    path: f.path@,
                    cursor: c@,
                    standing: stands(c.seq, c.wl, records),
                },
            )
        } else {
            None
        },
        _ => None,
    }
}

/// The consumers among the first `n` files, each put in its place.
pub open spec fn consumers_among(
    found: Seq<Found>,
    anchor: Seq<char>,
    records: Seq<ChunkRecord>,
    n: int,
) -> Seq<ConsumerModel>
    decreases n,
{
    if n <= 0 {
        Seq::empty()
    } else {
        let done = consumers_among(found, anchor, records, n - 1);
        match consumer_of(found[n - 1], anchor, records) {
            Some(c) => done.insert(place(consumer_ranks(done), consumer_rank(c)), c),
            None => done,
        }
    }
}

/// How many of the first `n` files could not be read as cursors.
pub open spec fn unreadable_among(found: Seq<Found>, n: int) -> int
    decreases n,
{
    if n <= 0 {
        0
    } else {
        unreadable_among(found, n - 1) + (if found[n - 1].outcome is Err {
            1int
        } else {
            0int
        })
    }
}

/// Who is reading a store and how far behind they are.
#[derive(Clone, Debug, PartialEq, Eq)]
pub struct Survey {
    /// The declared directory these were found in.
    pub dir: String,
    /// Furthest-behind first.
    pub consumers: Vec<Consumer>,
    /// Files in the directory that could not be read as cursors. Counted
    /// rather than reported one by one: the directory is shared by design, so
    /// a neighbour's file must not make a listing fail.
    pub unreadable: usize,
}

/// The largest backlog of the first `n` consumers.
pub open spec fn largest_backlog(v: Seq<Consumer>, n: int) -> u64
    decreases n,
{
    if n <= 0 {
        0
    } else {
        let rest = largest_backlog(v, n - 1);
        if v[n - 1].standing.behind_bytes > rest {
            v[n - 1].standing.behind_bytes
        } else {
            rest
        }
    }
}

/// The consumers that retention has outrun, in order.
pub open spec fn gapped_among(v: Seq<Consumer>, n: int) -> Seq<ConsumerModel>
    decreases n,
{
    if n <= 0 {
        Seq::empty()
    } else if v[n - 1].standing.gap_chunks is Some {
        gapped_among(v, n - 1).push(v[n - 1]@)
    } else {
        gapped_among(v, n - 1)
    }
}

impl Survey {
    /// Compressed bytes no cursor-honouring retention could drop: the
    /// furthest-behind consumer's backlog.
    pub fn held_bytes(&self) -> (n: u64)
        ensures
            n == largest_backlog(self.consumers@, self.consumers@.len() as int),
    {
        let mut n: u64 = 0;
        let mut i: usize = 0;
        while i < self.consumers.len()
            invariant
                i <= self.consumers@.len(),
                n == largest_backlog(self.consumers@, i as int),
            decreases self.consumers@.len() - i,
        {
            if self.consumers[i].standing.behind_bytes > n {
                n = self.consumers[i].standing.behind_bytes;
            }
            i = i + 1;
        }
        n
    }

    /// The consumer that decides how much of the store is unread.
    pub fn worst(&self) -> (r: Option<&Consumer>)
        ensures
            match r {
                Some(c) => self.consumers@.len() > 0 && c@ == self.consumers@[0]@,
                None => self.consumers@.len() == 0,
            },
    {
        if self.consumers.len() == 0 {
            None
        } else {
            Some(&self.consumers[0])
        }
    }

    /// The consumers that retention has outrun.
    pub fn gapped(&self) -> (r: Vec<&Consumer>)
        ensures
            Seq::new(r@.len(), |i: int| r@[i]@) == gapped_among(
                self.consumers@,
                self.consumers@.len() as int,
            ),
    {
        let mut r: Vec<&Consumer> = Vec::new();
        let mut i: usize = 0;
        assert(Seq::new(r@.len(), |i: int| r@[i]@) =~= gapped_among(self.consumers@, 0));
        while i < self.consumers.len()
            invariant
                i <= self.consumers@.len(),
                Seq::new(r@.len(), |i: int| r@[i]@) == gapped_among(self.consumers@, i as int),
            decreases self.consumers@.len() - i,
        {
            if self.consumers[i].standing.gap_chunks.is_some() {
                let ghost was = Seq::new(r@.len(), |i: int| r@[i]@);
                r.push(&self.consumers[i]);
                assert(Seq::new(r@.len(), |i: int| r@[i]@) =~= was.push(self.consumers@[i as int]@));
            }
            i = i + 1;
        }
        r
    }
}

fn rank_of_consumer(c: &Consumer) -> (r: Rank)
    ensures
        r@ == consumer_rank(c@),
{
    Rank {
        first: u64::MAX - c.standing.behind_bytes,
        second: 0,
        name: text(c.name.as_str()),
    }
}

fn put_consumer(v: &mut Vec<Consumer>, c: Consumer)
    ensures
        ({
            let was = consumer_models(old(v)@);
            consumer_models(final(v)@) == was.insert(
                place(consumer_ranks(was), consumer_rank(c@)),
                c@,
            )
        }),
        final(v)@.len() == old(v)@.len() + 1,
{
    let ghost was = consumer_models(v@);
    let ghost ranks = consumer_ranks(was);
    let rank = rank_of_consumer(&c);
    let mut k: usize = 0;
    while k < v.len() && !is_ahead(&rank, &rank_of_consumer(&v[k]))
        invariant
            k <= v@.len(),
            v@ == old(v)@,
            was == consumer_models(v@),
            ranks == consumer_ranks(was),
            rank@ == consumer_rank(c@),
            forall|i: int| 0 <= i < k ==> !ahead(rank@, #[trigger] ranks[i]),
        decreases v@.len() - k,
    {
        assert(ranks[k as int] == consumer_rank(v@[k as int]@));
        k = k + 1;
    }
    proof {
        if k < v@.len() {
            assert(ranks[k as int] == consumer_rank(v@[k as int]@));
        }
        lemma_place_is(ranks, rank@, k as int);
    }
    let ghost model = c@;
    v.insert(k, c);
    assert(consumer_models(v@) =~= was.insert(k as int, model));
}

/// Every cursor among the files found that is a position in the store that
/// `anchor` identifies, placed against that store's chunks and ranked
/// furthest-behind first. Never fatal: a cursor for another store is simply
/// not ours.
pub fn consumers_in(dir: &str, found: Vec<Found>, anchor: &str, records: &[ChunkRecord]) -> (r:
    Survey)
    requires
        records@.len() > 0 ==> records@.last().comp_start + records@.last().comp_len <= u64::MAX,
    ensures
        r.dir@ == dir@,
        consumer_models(r.consumers@) == consumers_among(
            found@,
            anchor@,
            records@,
            found@.len() as int,
        ),
        r.unreadable == unreadable_among(found@, found@.len() as int),
{
    let mut consumers: Vec<Consumer> = Vec::new();
    let mut unreadable: usize = 0;
    let mut i: usize = 0;
    assert(consumer_models(consumers@) =~= Seq::empty());
    while i < found.len()
        invariant
            i <= found@.len(),
            records@.len() > 0 ==> records@.last().comp_start + records@.last().comp_len
                <= u64::MAX,
            consumer_models(consumers@) == consumers_among(
                found@,
                anchor@,
                records@,
                i as int,
            ),
            unreadable == unreadable_among(found@, i as int),
            unreadable <= i,
        decreases found@.len() - i,
    {
        match &found[i].outcome {
            Ok(Some(c)) => {
                if same(c.store.as_str(), anchor) {
                    let name = if c.consumer.as_str().is_empty() {
                        text(found[i].stem.as_str())
                    } else {
                        text(c.consumer.as_str())
                    };
                    let cursor = Cursor {
                        consumer: text(c.consumer.as_str()),
                        store: text(c.store.as_str()),
                        path: text(c.path.as_str()),
                        seq: c.seq,
                        n: c.n,
                        wl: c.wl,
                        delivered: c.delivered,
                    };
                    put_consumer(
                        &mut consumers,
                        Consumer {
                            name,
                            path: text(found[i].path.as_str()),
                            standing: standing(c, records),
                            cursor,
                        },
                    );
                }
            },
            // A position in some other store, or none: not a problem.
            Ok(None) => {},
            Err(_) => {
                unreadable = unreadable + 1;
            },
        }
        i = i + 1;
    }
    Survey { dir: text(dir), consumers, unreadable }
}

/// A survey names the worst first: no consumer stands behind one that is
/// ranked ahead of it.
pub proof fn a_survey_is_ranked(
    found: Seq<Found>,
    anchor: Seq<char>,
    records: Seq<ChunkRecord>,
    n: int,
)
    ensures
        ranked(consumer_ranks(consumers_among(found, anchor, records, n))),
    decreases n,
{
    if n > 0 {
        a_survey_is_ranked(found, anchor, records, n - 1);
        let done = consumers_among(found, anchor, records, n - 1);
        match consumer_of(found[n - 1], anchor, records) {
            Some(c) => {
                lemma_place_keeps_ranked(consumer_ranks(done), consumer_rank(c));
                let k = place(consumer_ranks(done), consumer_rank(c));
                crate::rank::lemma_place(consumer_ranks(done), consumer_rank(c));
                assert(consumer_ranks(done.insert(k, c)) =~= consumer_ranks(done).insert(
                    k,
                    consumer_rank(c),
                ));
            },
            None => {},
        }
    }
}

/// The view of a store whose declared directory was read, or could not be: a
/// declared directory that cannot be read is still a declared directory, and
/// reads as empty rather than absent. `None` where the store declares none.
pub fn survey(
    bark: Option<&Fields>,
    found: Vec<Found>,
    dir: &str,
    name: &str,
    records: &[ChunkRecord],
) -> (r: Option<Survey>)
    requires
        records@.len() > 0 ==> records@.last().comp_start + records@.last().comp_len <= u64::MAX,
    ensures
        r is None <==> cursors_of(manifest_view(bark)) is None,
        r is Some ==> r->Some_0.dir@ == cursors_of(manifest_view(bark))->Some_0
            && consumer_models(r->Some_0.consumers@) == consumers_among(
            found@,
            anchor_of(manifest_view(bark), dir@, name@),
            records@,
            found@.len() as int,
        ) && r->Some_0.unreadable == unreadable_among(found@, found@.len() as int),
{
    match declared_dir(bark) {
        None => None,
        Some(cdir) => {
            let anchor = store_anchor(dir, name, bark);
            Some(consumers_in(cdir.as_str(), found, anchor.as_str(), records))
        },
    }
}

} // verus!
