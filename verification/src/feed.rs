//! Feeding a consumer: what it is told, and how far it says to move.
//!
//! The consumer is a child, and the two live and die together. Nothing is read
//! from a store until it has said that it speaks this protocol, and a position
//! moves only as far as it says: silence means that it has not got there.

use crate::bark::ManifestModel;
use crate::consumer::{holds_model, Diet, Report, ReportError, ReportModel};
use crate::follower::{place_in, place_models, PlaceModel, Positions};
use crate::json::{object_text, Fields};
use crate::paths::{file_name, file_name_of};
use crate::text::{decimal, number_text, same, text};
use vstd::prelude::*;
use vstd::slice::slice_to_vec;
use vstd::string::StringExecFns;
use vstd::utf8::encode_utf8;

verus! {

/// How long to wait for a consumer's hello. One reached over a network may take
/// a moment; one that never speaks must not wedge a follower in silence.
pub const HELLO_WAIT_MS: u64 = 30_000;

/// How long a consumer gets to exit after its input closes, before it is
/// killed.
pub const GRACE_MS: u64 = 5_000;

/// What is fed, and to whom.
#[derive(Debug, Clone, PartialEq, Eq)]
pub struct Opts {
    pub select: String,
    pub dirs: Vec<String>,
    pub positions: Option<String>,
    pub batch_entries: u64,
    pub poll_ms: u64,
    /// Keep going when a poll finds nothing. Without it what is there is
    /// drained, and that is the end.
    pub follow: bool,
    /// The consumer and its arguments.
    pub argv: Vec<String>,
    pub hello_wait_ms: u64,
}

/// What a position file says wrote it: the consumer's own program.
pub fn consumer_name(argv0: &str) -> (r: String)
    ensures
        r@ == (match file_name(argv0@) {
            Some(name) => name,
            None => argv0@,
        }),
{
    match file_name_of(argv0) {
        Some(name) => name,
        None => text(argv0),
    }
}

/// Why feeding a consumer failed.
#[derive(Debug, Clone, PartialEq, Eq)]
pub enum FeedError {
    NoConsumer,
    /// What the consumer said cannot be read.
    Report(ReportError),
    ReadsChunks,
    EarlyReport,
    /// No hello in so many seconds.
    NoHello(u64),
    ClosedBeforeHello,
    HelloTwice,
    Closed,
    Unattributed,
    NoOffset,
    /// The consumer exited with a status, and what else went wrong.
    Exited(String, Option<String>),
    /// The consumer did not exit in so many seconds.
    Killed(u64),
    Other(String),
}

impl FeedError {
    /// What the error says.
    pub open spec fn said(self) -> Seq<char> {
        match self {
            FeedError::NoConsumer => "no consumer to feed: give the command after `--`"@,
            FeedError::Report(e) => e.said(),
            FeedError::ReadsChunks => "the consumer reads chunks, which this timberfs does not serve yet — it has no per-store position on that path"@,
            FeedError::EarlyReport => "the consumer reported before saying hello"@,
            FeedError::NoHello(secs) => "the consumer said no hello in "@ + decimal(secs as nat)
                + "s. Every consumer declares itself — see timberfs-records(5) and the consumer protocol"@,
            FeedError::ClosedBeforeHello => "the consumer closed its output without saying hello"@,
            FeedError::HelloTwice => "the consumer said hello twice"@,
            FeedError::Closed => "the consumer closed its output"@,
            FeedError::Unattributed => "a followed answer left an entry unattributed"@,
            FeedError::NoOffset => "an entry record states no offset and length to acknowledge"@,
            FeedError::Exited(status, why) => "the consumer exited "@ + status@ + (match why {
                Some(e) => " ("@ + e@ + ")"@,
                None => ""@,
            }),
            FeedError::Killed(secs) => "the consumer did not exit within "@ + decimal(secs as nat)
                + "s of its input closing, and was killed"@,
            FeedError::Other(s) => s@,
        }
    }

    /// What the error says.
    pub fn message(&self) -> (r: String)
        ensures
            r@ == self.said(),
    {
        match self {
            FeedError::NoConsumer => text("no consumer to feed: give the command after `--`"),
            FeedError::Report(e) => e.message(),
            FeedError::ReadsChunks => text(
                "the consumer reads chunks, which this timberfs does not serve yet — it has no per-store position on that path",
            ),
            FeedError::EarlyReport => text("the consumer reported before saying hello"),
            FeedError::NoHello(secs) => text("the consumer said no hello in ").concat(
                number_text(*secs).as_str(),
            ).concat(
                "s. Every consumer declares itself — see timberfs-records(5) and the consumer protocol",
            ),
            FeedError::ClosedBeforeHello => text(
                "the consumer closed its output without saying hello",
            ),
            FeedError::HelloTwice => text("the consumer said hello twice"),
            FeedError::Closed => text("the consumer closed its output"),
            FeedError::Unattributed => text("a followed answer left an entry unattributed"),
            FeedError::NoOffset => text(
                "an entry record states no offset and length to acknowledge",
            ),
            FeedError::Exited(status, why) => {
                let more = match why {
                    Some(e) => text(" (").concat(e.as_str()).concat(")"),
                    None => text(""),
                };
                text("the consumer exited ").concat(status.as_str()).concat(more.as_str())
            },
            FeedError::Killed(secs) => text("the consumer did not exit within ").concat(
                number_text(*secs).as_str(),
            ).concat("s of its input closing, and was killed"),
            FeedError::Other(s) => text(s.as_str()),
        }
    }
}

// -------------------------------------------------------------------- hello

/// What came of waiting for a consumer to speak.
#[derive(Debug, Clone, PartialEq, Eq)]
pub enum Heard {
    Report(Report),
    Broken(ReportError),
    Timeout,
    Closed,
}

/// What a consumer's first word comes to: what its destination already holds,
/// or why it is not fed.
pub fn await_hello(heard: Heard, wait_ms: u64) -> (r: Result<Vec<(String, u64)>, FeedError>)
    ensures
        match heard {
            Heard::Report(rep) => match rep@ {
                ReportModel::Hello { reads, holds } => if reads == Diet::Records {
                    r matches Ok(v) && holds_model(v@) == holds
                } else {
                    r matches Err(FeedError::ReadsChunks)
                },
                _ => r matches Err(FeedError::EarlyReport),
            },
            Heard::Broken(e) => r matches Err(FeedError::Report(f)) && f == e,
            Heard::Timeout => r matches Err(FeedError::NoHello(secs)) && secs == wait_ms / 1000,
            Heard::Closed => r matches Err(FeedError::ClosedBeforeHello),
        },
        r is Ok <==> heard is Report && heard->Report_0@ is Hello
            && heard->Report_0@->reads is Records,
{
    match heard {
        Heard::Report(rep) => match rep {
            Report::Hello { reads, holds } => match reads {
                Diet::Records => Ok(holds),
                Diet::Chunks => Err(FeedError::ReadsChunks),
            },
            _ => Err(FeedError::EarlyReport),
        },
        Heard::Broken(e) => Err(FeedError::Report(e)),
        Heard::Timeout => Err(FeedError::NoHello(wait_ms / 1000)),
        Heard::Closed => Err(FeedError::ClosedBeforeHello),
    }
}

/// What is said of a claim.
pub open spec fn claim_said(id: Seq<char>, offset: u64, honoured: bool) -> Seq<char> {
    "timberfs: "@ + id + (if honoured {
        ": the consumer already holds it through offset "@ + decimal(offset as nat)
            + "; starting there"@
    } else {
        ": the consumer claims offset "@ + decimal(offset as nat)
            + ", and a recorded position outranks a claim — starting where we left off"@
    })
}

/// Honours a claim of what the destination holds, only where no place is
/// recorded: a number is not a proof, and skipping what was never delivered is
/// the silent failure. Gives what is said.
pub fn seed(held: &mut Positions, id: &str, offset: u64) -> (r: String)
    ensures
        r@ == claim_said(id@, offset, place_in(old(held).at@, id@) is None),
        place_in(old(held).at@, id@) is Some ==> *final(held) == *old(held),
        place_in(old(held).at@, id@) is None ==> place_models(final(held).at@) == place_models(
            old(held).at@,
        ).push(
            (PlaceModel {
                id: id@,
                path: Seq::empty(),
                offset,
                chunk: None,
                wl: 0,
                delivered: 0,
            }),
        ) && final(held).notes == old(held).notes && final(held).note == old(held).note
            && final(held).consumer == old(held).consumer,
{
    if held.get(id).is_some() {
        return text("timberfs: ").concat(id).concat(": the consumer claims offset ").concat(
            number_text(offset).as_str(),
        ).concat(", and a recorded position outranks a claim — starting where we left off");
    }
    proof {
        reveal_strlit("");
        assert(""@ =~= Seq::<char>::empty());
    }
    held.advance(id, "", offset, None, 0, 0);
    text("timberfs: ").concat(id).concat(
        ": the consumer already holds it through offset ",
    ).concat(number_text(offset).as_str()).concat("; starting there")
}

// ------------------------------------------------------------------- stream

/// The start of the one stream that a consumer is fed: there is no end of it,
/// and that is how it says that it is live.
pub open spec fn stream_start_said(version: Seq<char>) -> Seq<u8> {
    encode_utf8(
        "\u{1e}stream-start\u{1f}v=1\u{1f}server_version="@ + version
            + "\u{1f}follow=1\u{1f}order=arrival"@,
    ).push(0)
}

/// The start of the one stream that a consumer is fed.
pub fn stream_start(version: &str) -> (r: Vec<u8>)
    ensures
        r@ == stream_start_said(version@),
{
    let head = text("\u{1e}stream-start\u{1f}v=1\u{1f}server_version=").concat(version).concat(
        "\u{1f}follow=1\u{1f}order=arrival",
    );
    let mut out = slice_to_vec(head.as_str().as_bytes());
    out.push(0);
    out
}

/// An entry that was forwarded and not acknowledged.
#[derive(Debug, Clone, Copy, PartialEq, Eq, Structural)]
pub struct Pending {
    /// Just past the entry, which is what a watermark for it looks like.
    pub end: u64,
    pub chunk: Option<u64>,
    pub wl: u64,
}

/// One store, as it is followed across polls.
#[derive(Debug, Clone)]
pub struct FedStore {
    pub id: String,
    pub path: String,
    /// The labels that were announced last.
    pub announced: Option<Fields>,
    pub pending: Vec<Pending>,
}

/// What a fed store is.
pub struct FedModel {
    pub id: Seq<char>,
    pub path: Seq<char>,
    pub announced: Option<ManifestModel>,
    pub pending: Seq<Pending>,
}

impl View for FedStore {
    type V = FedModel;

    open spec fn view(&self) -> FedModel {
        FedModel {
            id: self.id@,
            path: self.path@,
            announced: match self.announced {
                Some(f) => Some(f@),
                None => None,
            },
            pending: self.pending@,
        }
    }
}

spec fn fed_models(v: Seq<FedStore>) -> Seq<FedModel> {
    Seq::new(v.len(), |i: int| v[i]@)
}

/// Which store has an identity, from the `i`th on.
pub open spec fn fed_index(v: Seq<FedModel>, id: Seq<char>, i: int) -> int
    decreases v.len() - i,
{
    if i >= v.len() || v[i].id == id {
        i
    } else {
        fed_index(v, id, i + 1)
    }
}

/// A store's labels, as they are announced.
pub open spec fn source_record(path: Seq<char>, id: Seq<char>, labels: ManifestModel) -> Seq<u8> {
    encode_utf8(
        "\u{1e}source\u{1f}path="@ + path + "\u{1f}id="@ + id + "\u{1f}labels="@ + object_text(
            labels,
        ),
    ).push(0)
}

/// The stores after one was matched, and what the consumer is told of it: its
/// labels, where it does not know them as they are. A consumer ships what it
/// holds before it adopts new labels.
pub open spec fn announced(
    v: Seq<FedModel>,
    id: Seq<char>,
    path: Seq<char>,
    labels: ManifestModel,
) -> (Seq<FedModel>, Option<Seq<u8>>) {
    let k = fed_index(v, id, 0);
    if k < v.len() && v[k].announced == Some(labels) {
        (v, None)
    } else if k < v.len() {
        (
            v.update(k, FedModel { path, announced: Some(labels), ..v[k] }),
            Some(source_record(path, id, labels)),
        )
    } else {
        (
            v.push(FedModel { id, path, announced: Some(labels), pending: Seq::empty() }),
            Some(source_record(path, id, labels)),
        )
    }
}

/// The stores that a consumer is fed from.
#[derive(Debug, Clone)]
pub struct Feed {
    stores: Vec<FedStore>,
}

impl View for Feed {
    type V = Seq<FedModel>;

    closed spec fn view(&self) -> Seq<FedModel> {
        fed_models(self.stores@)
    }
}

fn source_bytes(path: &str, id: &str, labels: &Fields) -> (r: Vec<u8>)
    ensures
        r@ == source_record(path@, id@, labels@),
{
    let head = text("\u{1e}source\u{1f}path=").concat(path).concat("\u{1f}id=").concat(id).concat(
        "\u{1f}labels=",
    ).concat(labels.compact().as_str());
    let mut out = slice_to_vec(head.as_str().as_bytes());
    out.push(0);
    out
}

impl Feed {
    /// No store is followed.
    pub fn new() -> (r: Feed)
        ensures
            r@ == Seq::<FedModel>::empty(),
    {
        let r = Feed { stores: Vec::new() };
        proof {
            assert(r@ =~= Seq::<FedModel>::empty());
        }
        r
    }

    fn find(&self, id: &str) -> (k: usize)
        ensures
            k == fed_index(self@, id@, 0),
            k <= self@.len(),
            self@.len() == self.stores@.len(),
    {
        let mut k: usize = 0;
        while k < self.stores.len()
            invariant
                k <= self@.len(),
                self@ == fed_models(self.stores@),
                fed_index(self@, id@, 0) == fed_index(self@, id@, k as int),
            decreases self@.len() - k,
        {
            if same(self.stores[k].id.as_str(), id) {
                return k;
            }
            k = k + 1;
        }
        k
    }

    /// Notes that a store is matched; gives the record that announces its
    /// labels, where the consumer does not know them as they are.
    pub fn announce(&mut self, id: &str, path: &str, labels: &Fields) -> (r: Option<Vec<u8>>)
        ensures
            final(self)@ == announced(old(self)@, id@, path@, labels@).0,
            match r {
                Some(b) => announced(old(self)@, id@, path@, labels@).1 == Some(b@),
                None => announced(old(self)@, id@, path@, labels@).1 is None,
            },
    {
        let ghost was = self@;
        let k: usize = self.find(id);
        if k < self.stores.len() {
            let known = match &self.stores[k].announced {
                Some(f) => f.equals(labels),
                None => false,
            };
            if known {
                return None;
            }
            self.stores[k].announced = Some(labels.copy());
            self.stores[k].path = text(path);
            proof {
                assert(self@ =~= was.update(
                    k as int,
                    (FedModel { path: path@, announced: Some(labels@), ..was[k as int] }),
                ));
            }
        } else {
            let t = FedStore {
                id: text(id),
                path: text(path),
                announced: Some(labels.copy()),
                pending: Vec::new(),
            };
            self.stores.push(t);
            proof {
                assert(t@.pending =~= Seq::<Pending>::empty());
                assert(self@ =~= was.push(t@));
            }
        }
        Some(source_bytes(path, id, labels))
    }
}

// ------------------------------------------------------------------- splice

/// What a record of an answer is.
#[derive(Debug, Clone, Copy, PartialEq, Eq, Structural)]
pub enum RecordKind {
    Entry,
    StreamEnd,
    Other,
}

/// A record of an answer, as far as it is read here.
#[derive(Debug, Clone, PartialEq, Eq)]
pub struct AnswerRecord {
    pub kind: RecordKind,
    /// The store that an entry is of.
    pub id: Option<String>,
    pub offset: Option<u64>,
    pub len: Option<u64>,
    pub chunk: Option<u64>,
    pub wl: Option<u64>,
    /// Whether the end of a stream says that a bound stopped it.
    pub limited: bool,
    /// The whole record, as it goes to the consumer.
    pub bytes: Vec<u8>,
}

/// Whether what an entry ends at is a number.
pub open spec fn countable(r: AnswerRecord) -> bool {
    match (r.offset, r.len) {
        (Some(offset), Some(len)) => offset + len <= u64::MAX,
        _ => true,
    }
}

/// Forwarding an answer: the stores, what goes to the consumer, and whether a
/// bound stopped the answer.
pub struct Splice {
    pub stores: Seq<FedModel>,
    pub out: Seq<u8>,
    pub more: bool,
}

/// What a record does. Only entries go on: the brackets of an answer are not
/// the consumer's business, and its positions are what the consumer's own
/// watermarks replace.
pub open spec fn spliced_one(s: Splice, r: AnswerRecord) -> Result<Splice, FeedError> {
    match r.kind {
        RecordKind::Entry => if r.id is None {
            Err(FeedError::Unattributed)
        } else if r.offset is None || r.len is None {
            Err(FeedError::NoOffset)
        } else {
            let k = fed_index(s.stores, r.id->Some_0@, 0);
            let p = Pending {
                end: (r.offset->Some_0 + r.len->Some_0) as u64,
                chunk: r.chunk,
                wl: match r.wl {
                    Some(n) => n,
                    None => 0,
                },
            };
            Ok(
                Splice {
                    stores: if k < s.stores.len() {
                        s.stores.update(
                            k,
                            FedModel { pending: s.stores[k].pending.push(p), ..s.stores[k] },
                        )
                    } else {
                        s.stores
                    },
                    out: s.out + r.bytes@,
                    more: s.more,
                },
            )
        },
        RecordKind::StreamEnd => Ok(Splice { more: r.limited, ..s }),
        RecordKind::Other => Ok(s),
    }
}

/// What a run of records does; the first that cannot be forwarded ends it.
pub open spec fn spliced(stores: Seq<FedModel>, records: Seq<AnswerRecord>) -> Result<
    Splice,
    FeedError,
>
    decreases records.len(),
{
    if records.len() == 0 {
        Ok(Splice { stores, out: Seq::empty(), more: false })
    } else {
        match spliced(stores, records.drop_last()) {
            Err(e) => Err(e),
            Ok(s) => spliced_one(s, records.last()),
        }
    }
}

/// What was forwarded of a run of records: all of it, or what comes before the
/// first that cannot be.
pub open spec fn forwarded(stores: Seq<FedModel>, records: Seq<AnswerRecord>) -> Splice
    decreases records.len(),
{
    if records.len() == 0 {
        Splice { stores, out: Seq::empty(), more: false }
    } else {
        let before = forwarded(stores, records.drop_last());
        match spliced(stores, records) {
            Ok(s) => s,
            Err(_) => before,
        }
    }
}

proof fn lemma_forwarded_stops(stores: Seq<FedModel>, records: Seq<AnswerRecord>, k: int)
    requires
        0 <= k < records.len(),
        spliced(stores, records.take(k)) is Ok,
        spliced(stores, records.take(k + 1)) is Err,
    ensures
        forwarded(stores, records) == spliced(stores, records.take(k))->Ok_0,
    decreases records.len(),
{
    lemma_spliced_stops(stores, records, k + 1);
    let front = records.drop_last();
    if k + 1 == records.len() {
        assert(records.take(k) =~= front);
        lemma_forwarded_all(stores, front);
    } else {
        assert(front.take(k) =~= records.take(k));
        assert(front.take(k + 1) =~= records.take(k + 1));
        lemma_forwarded_stops(stores, front, k);
    }
}

proof fn lemma_forwarded_all(stores: Seq<FedModel>, records: Seq<AnswerRecord>)
    requires
        spliced(stores, records) is Ok,
    ensures
        forwarded(stores, records) == spliced(stores, records)->Ok_0,
{
}

proof fn lemma_spliced_stops(stores: Seq<FedModel>, records: Seq<AnswerRecord>, k: int)
    requires
        0 <= k <= records.len(),
        spliced(stores, records.take(k)) is Err,
    ensures
        spliced(stores, records) == spliced(stores, records.take(k)),
    decreases records.len(),
{
    if k == records.len() {
        assert(records.take(k) =~= records);
    } else {
        assert(records.drop_last().take(k) =~= records.take(k));
        lemma_spliced_stops(stores, records.drop_last(), k);
    }
}

impl Feed {
    /// Forwards the entries of an answer: gives the bytes for the consumer,
    /// and whether a bound stopped the answer, so that the stores are polled
    /// again at once. What comes before an entry that cannot be forwarded is
    /// forwarded.
    pub fn splice(&mut self, records: &Vec<AnswerRecord>) -> (r: (
        Vec<u8>,
        Result<bool, FeedError>,
    ))
        requires
            forall|i: int| 0 <= i < records@.len() ==> countable(#[trigger] records@[i]),
        ensures
            final(self)@ == forwarded(old(self)@, records@).stores,
            r.0@ == forwarded(old(self)@, records@).out,
            match r.1 {
                Ok(more) => spliced(old(self)@, records@) == Ok::<Splice, FeedError>(
                    Splice { stores: final(self)@, out: r.0@, more },
                ),
                Err(e) => spliced(old(self)@, records@) == Err::<Splice, FeedError>(e),
            },
    {
        let ghost was = self@;
        let mut out: Vec<u8> = Vec::new();
        let mut more = false;
        let mut i: usize = 0;
        proof {
            assert(records@.take(0) =~= Seq::empty());
            assert(out@ =~= Seq::<u8>::empty());
        }
        while i < records.len()
            invariant
                i <= records@.len(),
                was == old(self)@,
                forall|i: int| 0 <= i < records@.len() ==> countable(#[trigger] records@[i]),
                spliced(was, records@.take(i as int)) == Ok::<Splice, FeedError>(
                    Splice { stores: self@, out: out@, more },
                ),
            decreases records@.len() - i,
        {
            let rec = &records[i];
            proof {
                assert(records@.take(i + 1).drop_last() =~= records@.take(i as int));
                assert(countable(records@[i as int]));
                if spliced(was, records@.take(i + 1)) is Err {
                    lemma_spliced_stops(was, records@, i + 1);
                    lemma_forwarded_stops(was, records@, i as int);
                }
            }
            match rec.kind {
                RecordKind::Entry => {
                    let id = match &rec.id {
                        Some(id) => id,
                        None => {
                            return (out, Err(FeedError::Unattributed));
                        },
                    };
                    let (offset, len) = match (rec.offset, rec.len) {
                        (Some(offset), Some(len)) => (offset, len),
                        _ => {
                            return (out, Err(FeedError::NoOffset));
                        },
                    };
                    let k: usize = self.find(id.as_str());
                    let ghost before = self@;
                    if k < self.stores.len() {
                        let p = Pending {
                            end: offset + len,
                            chunk: rec.chunk,
                            wl: match rec.wl {
                                Some(n) => n,
                                None => 0,
                            },
                        };
                        self.stores[k].pending.push(p);
                        proof {
                            assert(self@ =~= before.update(
                                k as int,
                                (FedModel {
                                    pending: before[k as int].pending.push(p),
                                    ..before[k as int]
                                }),
                            ));
                        }
                    }
                    let ghost sent = out@;
                    out.extend_from_slice(rec.bytes.as_slice());
                    proof {
                        assert(out@ =~= sent + rec.bytes@);
                    }
                },
                RecordKind::StreamEnd => {
                    more = rec.limited;
                },
                RecordKind::Other => {},
            }
            i = i + 1;
        }
        proof {
            assert(records@.take(i as int) =~= records@);
            lemma_forwarded_all(was, records@);
        }
        (out, Ok(more))
    }
}

// ------------------------------------------------------------------ reports

/// The entries that end at or before a watermark.
pub open spec fn reached(pending: Seq<Pending>, offset: u64) -> Seq<Pending>
    decreases pending.len(),
{
    if pending.len() == 0 {
        Seq::empty()
    } else if pending.last().end <= offset {
        reached(pending.drop_last(), offset).push(pending.last())
    } else {
        reached(pending.drop_last(), offset)
    }
}

/// The entries that end past it.
pub open spec fn not_reached(pending: Seq<Pending>, offset: u64) -> Seq<Pending>
    decreases pending.len(),
{
    if pending.len() == 0 {
        Seq::empty()
    } else if pending.last().end > offset {
        not_reached(pending.drop_last(), offset).push(pending.last())
    } else {
        not_reached(pending.drop_last(), offset)
    }
}

/// The later of two chunks; any chunk is later than none.
pub open spec fn later_chunk(a: Option<u64>, b: Option<u64>) -> Option<u64> {
    match (a, b) {
        (Some(x), Some(y)) => if y > x {
            b
        } else {
            a
        },
        (Some(_), None) => a,
        _ => b,
    }
}

/// The last chunk of a list of entries.
pub open spec fn last_chunk(v: Seq<Pending>) -> Option<u64>
    decreases v.len(),
{
    if v.len() == 0 {
        None
    } else {
        later_chunk(v.last().chunk, last_chunk(v.drop_last()))
    }
}

/// The last write of a list of entries.
pub open spec fn last_write(v: Seq<Pending>) -> u64
    decreases v.len(),
{
    if v.len() == 0 {
        0
    } else {
        let front = last_write(v.drop_last());
        if v.last().wl > front {
            v.last().wl
        } else {
            front
        }
    }
}

/// How far a store's position moves.
#[derive(Debug, Clone, PartialEq, Eq)]
pub struct Ack {
    pub id: String,
    pub path: String,
    pub offset: u64,
    pub chunk: Option<u64>,
    pub wl: u64,
    pub delivered: u64,
}

/// How far a store's position moves.
pub struct AckModel {
    pub id: Seq<char>,
    pub path: Seq<char>,
    pub offset: u64,
    pub chunk: Option<u64>,
    pub wl: u64,
    pub delivered: nat,
}

impl View for Ack {
    type V = AckModel;

    open spec fn view(&self) -> AckModel {
        AckModel {
            id: self.id@,
            path: self.path@,
            offset: self.offset,
            chunk: self.chunk,
            wl: self.wl,
            delivered: self.delivered as nat,
        }
    }
}

/// What a report comes to.
#[derive(Debug, Clone, PartialEq, Eq)]
pub enum Taken {
    /// A position moves.
    Moved(Ack),
    /// It is about a store that the consumer was never sent anything from;
    /// what is said.
    Ignored(String),
    /// The consumer says something; what is said, and what is recorded.
    Noted { said: String, id: Option<String>, offset: Option<u64>, text: String },
}

/// What is said of an acknowledgement for a store that was never sent.
pub open spec fn ignored_said(id: Seq<char>) -> Seq<char> {
    "timberfs: the consumer acknowledged store "@ + id
        + ", which it was never sent anything from — ignoring"@
}

/// What is said of a consumer's word.
pub open spec fn note_said(id: Option<Seq<char>>, offset: Option<u64>, text: Seq<char>) -> Seq<
    char,
> {
    "timberfs: consumer note"@ + (match id {
        Some(i) => " ["@ + i + "]"@,
        None => ""@,
    }) + (match offset {
        Some(o) => " @"@ + decimal(o as nat),
        None => ""@,
    }) + ": "@ + text
}

/// The acknowledgement of a store's entries up to a watermark: the chunk and
/// the write time are those that were stated when the entries went out.
pub open spec fn acknowledged(s: FedModel, offset: u64) -> AckModel {
    let done = reached(s.pending, offset);
    AckModel {
        id: s.id,
        path: s.path,
        offset,
        chunk: last_chunk(done),
        wl: last_write(done),
        delivered: done.len(),
    }
}

/// The stores after a report.
pub open spec fn after_report(v: Seq<FedModel>, rep: ReportModel) -> Seq<FedModel> {
    match rep {
        ReportModel::Progress { id, offset } => {
            let k = fed_index(v, id, 0);
            if k < v.len() {
                v.update(k, FedModel { pending: not_reached(v[k].pending, offset), ..v[k] })
            } else {
                v
            }
        },
        _ => v,
    }
}

/// What a report comes to, among the stores that are followed.
pub open spec fn report_outcome(
    v: Seq<FedModel>,
    rep: ReportModel,
    r: Result<Taken, FeedError>,
) -> bool {
    match rep {
        ReportModel::Progress { id, offset } => {
            let k = fed_index(v, id, 0);
            if k < v.len() {
                r matches Ok(Taken::Moved(a)) && a@ == acknowledged(v[k], offset)
            } else {
                r matches Ok(Taken::Ignored(s)) && s@ == ignored_said(id)
            }
        },
        ReportModel::Note { id, offset, text } => r matches Ok(
            Taken::Noted { said, id: i, offset: o, text: t },
        ) && said@ == note_said(id, offset, text) && crate::bark::opt_string(i) == id && o == offset
            && t@ == text,
        ReportModel::Hello { .. } => r matches Err(FeedError::HelloTwice),
    }
}

struct Settled {
    left: Vec<Pending>,
    chunk: Option<u64>,
    wl: u64,
    delivered: u64,
}

fn settle(pending: &Vec<Pending>, offset: u64) -> (r: Settled)
    ensures
        r.left@ == not_reached(pending@, offset),
        r.chunk == last_chunk(reached(pending@, offset)),
        r.wl == last_write(reached(pending@, offset)),
        r.delivered == reached(pending@, offset).len(),
{
    let size: usize = pending.len();
    let mut left: Vec<Pending> = Vec::new();
    let mut chunk: Option<u64> = None;
    let mut wl: u64 = 0;
    let mut delivered: u64 = 0;
    let mut i: usize = 0;
    proof {
        assert(pending@.take(0) =~= Seq::empty());
        assert(left@ =~= Seq::<Pending>::empty());
    }
    while i < pending.len()
        invariant
            i <= pending@.len(),
            size == pending@.len(),
            delivered <= i,
            left@ == not_reached(pending@.take(i as int), offset),
            chunk == last_chunk(reached(pending@.take(i as int), offset)),
            wl == last_write(reached(pending@.take(i as int), offset)),
            delivered == reached(pending@.take(i as int), offset).len(),
        decreases pending@.len() - i,
    {
        let p: Pending = pending[i];
        proof {
            let done = reached(pending@.take(i as int), offset);
            assert(pending@.take(i + 1).drop_last() =~= pending@.take(i as int));
            assert(done.push(p).drop_last() =~= done);
        }
        if p.end <= offset {
            chunk = match (p.chunk, chunk) {
                (Some(x), Some(y)) => if y > x {
                    Some(y)
                } else {
                    Some(x)
                },
                (Some(x), None) => Some(x),
                (None, c) => c,
            };
            if p.wl > wl {
                wl = p.wl;
            }
            delivered = delivered + 1;
        } else {
            left.push(p);
        }
        i = i + 1;
    }
    proof {
        assert(pending@.take(i as int) =~= pending@);
    }
    Settled { left, chunk, wl, delivered }
}

impl Feed {
    /// Takes what the consumer says, and gives what is to be done about it.
    pub fn take_report(&mut self, rep: Report) -> (r: Result<Taken, FeedError>)
        ensures
            final(self)@ == after_report(old(self)@, rep@),
            report_outcome(old(self)@, rep@, r),
    {
        let ghost was = self@;
        match rep {
            Report::Hello { .. } => Err(FeedError::HelloTwice),
            Report::Note { id, offset, text: word } => {
                let who = match &id {
                    Some(i) => text(" [").concat(i.as_str()).concat("]"),
                    None => text(""),
                };
                let place = match offset {
                    Some(o) => text(" @").concat(number_text(o).as_str()),
                    None => text(""),
                };
                let said = text("timberfs: consumer note").concat(who.as_str()).concat(
                    place.as_str(),
                ).concat(": ").concat(word.as_str());
                Ok(Taken::Noted { said, id, offset, text: word })
            },
            Report::Progress { id, offset } => {
                let k: usize = self.find(id.as_str());
                if k >= self.stores.len() {
                    return Ok(
                        Taken::Ignored(
                            text("timberfs: the consumer acknowledged store ").concat(
                                id.as_str(),
                            ).concat(", which it was never sent anything from — ignoring"),
                        ),
                    );
                }
                proof {
                    lemma_fed_index(was, id@, 0);
                }
                let done = settle(&self.stores[k].pending, offset);
                let path = text(self.stores[k].path.as_str());
                let Settled { left, chunk, wl, delivered } = done;
                self.stores[k].pending = left;
                proof {
                    assert(self@ =~= was.update(
                        k as int,
                        (FedModel {
                            pending: not_reached(was[k as int].pending, offset),
                            ..was[k as int]
                        }),
                    ));
                }
                Ok(Taken::Moved(Ack { id, path, offset, chunk, wl, delivered }))
            },
        }
    }
}

proof fn lemma_fed_index(v: Seq<FedModel>, id: Seq<char>, i: int)
    requires
        0 <= i <= v.len(),
    ensures
        i <= fed_index(v, id, i) <= v.len(),
        fed_index(v, id, i) < v.len() ==> v[fed_index(v, id, i)].id == id,
    decreases v.len() - i,
{
    if i < v.len() && v[i].id != id {
        lemma_fed_index(v, id, i + 1);
    }
}

/// How far a consumer's reports are drained.
#[derive(Debug, Clone, Copy, PartialEq, Eq, Structural)]
pub enum Drain {
    /// Whatever has arrived: the loop goes on, so that the consumer's output
    /// closing is a failure.
    Now,
    /// Until its output closes, which is how a consumer says that it has
    /// finished.
    ToEnd,
}

/// What the end of a consumer's output comes to.
pub fn drained(how: Drain) -> (r: Result<(), FeedError>)
    ensures
        match how {
            Drain::Now => r matches Err(FeedError::Closed),
            Drain::ToEnd => r is Ok,
        },
{
    match how {
        Drain::Now => Err(FeedError::Closed),
        Drain::ToEnd => Ok(()),
    }
}

// --------------------------------------------------------------------- loop

/// What follows a poll.
#[derive(Debug, Clone, Copy, PartialEq, Eq, Structural)]
pub enum AfterPoll {
    Again,
    Sleep,
    End,
}

/// What follows a poll: one that a bound stopped is repeated at once.
pub fn after_poll(more: bool, follow: bool) -> (r: AfterPoll)
    ensures
        r == (if more {
            AfterPoll::Again
        } else if follow {
            AfterPoll::Sleep
        } else {
            AfterPoll::End
        }),
        r is Again <==> more,
        r is End <==> !more && !follow,
{
    if more {
        AfterPoll::Again
    } else if follow {
        AfterPoll::Sleep
    } else {
        AfterPoll::End
    }
}

/// What is said of how many stores are followed, where that is not what was
/// said last.
pub fn following_note(said: Option<usize>, matched: usize) -> (r: Option<String>)
    ensures
        match r {
            Some(s) => said != Some(matched) && s@ == "timberfs: following "@ + decimal(
                matched as nat,
            ) + " store(s)"@,
            None => said == Some(matched),
        },
{
    if let Some(n) = said {
        if n == matched {
            return None;
        }
    }
    Some(text("timberfs: following ").concat(number_text(matched as u64).as_str()).concat(" store(s)"))
}

/// How a consumer left.
#[derive(Debug, Clone, PartialEq, Eq)]
pub enum Exit {
    Success,
    /// With a status, as it is shown.
    Failed(String),
    /// It did not leave in time, and was killed.
    Killed,
}

/// What a run comes to. The consumer's own failure is the cause and a broken
/// pipe is its symptom, so that is told first.
pub fn run_outcome(exit: Exit, fed: Result<(), FeedError>) -> (r: Result<(), FeedError>)
    ensures
        match exit {
            Exit::Failed(status) => r matches Err(FeedError::Exited(s, why)) && s@ == status@ && (
            match fed {
                Ok(()) => why is None,
                Err(e) => why is Some && why->Some_0@ == e.said(),
            }),
            Exit::Killed => r matches Err(FeedError::Killed(secs)) && secs == GRACE_MS / 1000,
            Exit::Success => r == fed,
        },
        r is Ok <==> exit is Success && fed is Ok,
{
    match exit {
        Exit::Failed(status) => {
            let why = match &fed {
                Ok(()) => None,
                Err(e) => Some(e.message()),
            };
            Err(FeedError::Exited(status, why))
        },
        Exit::Killed => Err(FeedError::Killed(GRACE_MS / 1000)),
        Exit::Success => fed,
    }
}

// --------------------------------------------------------------------- laws

/// A watermark splits what was forwarded: each entry is counted once, when it
/// is reached, and stays until then.
pub proof fn an_entry_is_delivered_once(pending: Seq<Pending>, offset: u64)
    ensures
        reached(pending, offset).to_multiset().add(not_reached(pending, offset).to_multiset())
            =~= pending.to_multiset(),
        reached(not_reached(pending, offset), offset) == Seq::<Pending>::empty(),
        reached(pending, offset).len() + not_reached(pending, offset).len() == pending.len(),
    decreases pending.len(),
{
    broadcast use vstd::seq_lib::group_to_multiset_ensures;

    if pending.len() == 0 {
        assert(pending =~= Seq::<Pending>::empty());
    } else {
        let front = pending.drop_last();
        an_entry_is_delivered_once(front, offset);
        assert(pending =~= front.push(pending.last()));
        let left = not_reached(front, offset);
        if pending.last().end > offset {
            assert(left.push(pending.last()).drop_last() =~= left);
        }
    }
}

/// A consumer that never reports never advances: reports of other kinds leave
/// every entry waiting.
pub proof fn silence_moves_nothing(v: Seq<FedModel>, rep: ReportModel)
    requires
        !(rep is Progress),
    ensures
        after_report(v, rep) == v,
{
}

/// Labels are announced once: where they have not changed, nothing is said.
pub proof fn labels_are_announced_once(
    v: Seq<FedModel>,
    id: Seq<char>,
    path: Seq<char>,
    labels: ManifestModel,
)
    ensures
        announced(announced(v, id, path, labels).0, id, path, labels) == (
            announced(v, id, path, labels).0,
            None::<Seq<u8>>,
        ),
{
    lemma_fed_index(v, id, 0);
    let k = fed_index(v, id, 0);
    let now = announced(v, id, path, labels).0;
    lemma_first_stays(v, now, id, 0, k);
}

proof fn lemma_first_stays(v: Seq<FedModel>, now: Seq<FedModel>, id: Seq<char>, i: int, k: int)
    requires
        0 <= i <= k <= v.len(),
        k == fed_index(v, id, i),
        k < now.len(),
        now[k].id == id,
        forall|j: int| 0 <= j < k ==> now[j] == v[j],
    ensures
        fed_index(now, id, i) == k,
    decreases k - i,
{
    if i < k {
        lemma_fed_index(v, id, i);
        assert(v[i].id != id);
        assert(now[i] == v[i]);
        lemma_first_stays(v, now, id, i + 1, k);
    }
}

} // verus!
