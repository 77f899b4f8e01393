//! The consumer protocol: what a consumer says back.
//!
//! A follower reads its selection, feeds a consumer, and holds the position.
//! The consumer says how far to move it. Messages are records: an RS-marked
//! kind, US-separated `k=v`, NUL-terminated.
//!
//! A watermark means "do not send me these again", not "these are safe". The
//! unit is the absolute offset on the store's tape. Any field whose value this
//! protocol does not constrain is a JSON string (`holds`, a note's `text`): a
//! JSON string cannot contain a raw control character, so content cannot break
//! the framing.
//!
//! ```text
//! printf '\036hello\037v=1\037reads=records\000'
//! printf '\036progress\037id=%s\037offset=%s\000' "$id" "$off"
//! printf '\036note\037id=%s\037text="%s"\000' "$id" "$why"
//! ```

use crate::consumer_laws::{
    a_hello_reads_back, a_note_reads_back, a_progress_report_reads_back, clean, reads_back, wholes,
};
use crate::json::{
    fields_map, json_members, json_object, json_quoted, json_string, quote, read_string,
    whole_fields, wholes_text, FieldModel, Fields, Json, JsonModel, Whole,
};
use crate::order::ordered;
use crate::text::{
    chars_of, debug_text, decimal, number_text, parse_u64, parsed, quoted, same, split_at_char,
    split_once, text, text_of, texts,
};
use crate::tokens::byte_texts;
use crate::wire::{
    find_byte, lossy, lossy_text, position_of, same_run, split, split_bytes, RS, US,
};
use vstd::prelude::*;
use vstd::slice::{slice_subrange, slice_to_vec};
use vstd::string::StringExecFns;
use vstd::utf8::encode_utf8;

verus! {

/// The version this build speaks. A consumer declaring another is refused,
/// rather than read under rules it may not share.
pub const VERSION: &'static str = "1";

/// What a consumer reads. Declared by the consumer, not configured by the
/// operator: it is a property of the program.
#[derive(Clone, Copy, Debug, PartialEq, Eq, Structural)]
pub enum Diet {
    Records,
    Chunks,
}

impl Diet {
    /// The word for a diet.
    pub open spec fn word(self) -> Seq<char> {
        match self {
            Diet::Records => "records"@,
            Diet::Chunks => "chunks"@,
        }
    }

    pub fn as_str(&self) -> (r: &'static str)
        ensures
            r@ == self.word(),
    {
        match self {
            Diet::Records => "records",
            Diet::Chunks => "chunks",
        }
    }

    fn parse(s: &str) -> (r: Result<Diet, ReportError>)
        ensures
            match r {
                Ok(d) => diet_of(s@) == Some(d),
                Err(e) => diet_of(s@) is None && e@ == (ReportProblem::UnknownDiet(s@)),
            },
    {
        if same(s, "records") {
            Ok(Diet::Records)
        } else if same(s, "chunks") {
            Ok(Diet::Chunks)
        } else {
            Err(ReportError::UnknownDiet(text(s)))
        }
    }
}

/// The diet that a word names.
pub open spec fn diet_of(s: Seq<char>) -> Option<Diet> {
    if s == "records"@ {
        Some(Diet::Records)
    } else if s == "chunks"@ {
        Some(Diet::Chunks)
    } else {
        None
    }
}

/// One message from a consumer.
#[derive(Debug, Clone, PartialEq, Eq)]
#[allow(inconsistent_fields)]
pub enum Report {
    /// Once, before anything else. `holds` is what the consumer's destination
    /// already has: a hint, honoured only where the follower has no position
    /// of its own for that store.
    Hello { reads: Diet, holds: Vec<(String, u64)> },
    /// Move this store's position here.
    Progress { id: String, offset: u64 },
    /// Why nothing is moving, for an operator. `id` absent means "about me,
    /// not a store".
    Note { id: Option<String>, offset: Option<u64>, text: String },
}

/// What a message is.
#[allow(inconsistent_fields)]
pub enum ReportModel {
    Hello { reads: Diet, holds: Seq<(Seq<char>, u64)> },
    Progress { id: Seq<char>, offset: u64 },
    Note { id: Option<Seq<char>>, offset: Option<u64>, text: Seq<char> },
}

pub open spec fn holds_model(v: Seq<(String, u64)>) -> Seq<(Seq<char>, u64)> {
    Seq::new(v.len(), |i: int| (v[i].0@, v[i].1))
}

impl View for Report {
    type V = ReportModel;

    open spec fn view(&self) -> ReportModel {
        match *self {
            Report::Hello { reads, holds } => ReportModel::Hello {
                reads,
                holds: holds_model(holds@),
            },
            Report::Progress { id, offset } => ReportModel::Progress { id: id@, offset },
            Report::Note { id, offset, text } => ReportModel::Note {
                id: match id {
                    Some(s) => Some(s@),
                    None => None,
                },
                offset,
                text: text@,
            },
        }
    }
}

/// Why a consumer cannot be trusted with a position.
#[derive(Debug, Clone, PartialEq, Eq)]
pub enum ReportError {
    Truncated,
    Unmarked,
    OtherVersion(String),
    UnknownDiet(String),
    /// The kind that came before the hello.
    BeforeHello(&'static str),
    NoStore,
    NoOffset,
    OffsetNotANumber,
    NoText,
    TextNotAString,
    HoldsNotAnObject,
    /// The store whose offset is not a number.
    HoldsNotANumber(String),
}

/// What a report error is.
pub enum ReportProblem {
    Truncated,
    Unmarked,
    OtherVersion(Seq<char>),
    UnknownDiet(Seq<char>),
    BeforeHello(Seq<char>),
    NoStore,
    NoOffset,
    OffsetNotANumber,
    NoText,
    TextNotAString,
    HoldsNotAnObject,
    HoldsNotANumber(Seq<char>),
}

impl View for ReportError {
    type V = ReportProblem;

    open spec fn view(&self) -> ReportProblem {
        match *self {
            ReportError::Truncated => ReportProblem::Truncated,
            ReportError::Unmarked => ReportProblem::Unmarked,
            ReportError::OtherVersion(s) => ReportProblem::OtherVersion(s@),
            ReportError::UnknownDiet(s) => ReportProblem::UnknownDiet(s@),
            ReportError::BeforeHello(s) => ReportProblem::BeforeHello(s@),
            ReportError::NoStore => ReportProblem::NoStore,
            ReportError::NoOffset => ReportProblem::NoOffset,
            ReportError::OffsetNotANumber => ReportProblem::OffsetNotANumber,
            ReportError::NoText => ReportProblem::NoText,
            ReportError::TextNotAString => ReportProblem::TextNotAString,
            ReportError::HoldsNotAnObject => ReportProblem::HoldsNotAnObject,
            ReportError::HoldsNotANumber(s) => ReportProblem::HoldsNotANumber(s@),
        }
    }
}

impl ReportError {
    /// What the error says.
    pub open spec fn said(self) -> Seq<char> {
        match self {
            ReportError::Truncated => "consumer report truncated mid-record"@,
            ReportError::Unmarked =>
                "malformed consumer report: unmarked record. Every message begins with RS (0x1e), as timberfs-records(5) does"@,
            ReportError::OtherVersion(v) => "a consumer speaks protocol version "@ + quoted(v@)
                + "; this timberfs speaks "@ + quoted("1"@),
            ReportError::UnknownDiet(s) => "a consumer asked to read "@ + quoted(s@)
                + ", which is not a diet this timberfs knows (records, chunks)"@,
            ReportError::BeforeHello(kind) => "a consumer sent "@ + kind@
                + " before saying hello"@,
            ReportError::NoStore => "a progress report names no store (id=)"@,
            ReportError::NoOffset => "a progress report carries no offset"@,
            ReportError::OffsetNotANumber => "a progress report's offset is not a number"@,
            ReportError::NoText => "a note carries no text"@,
            ReportError::TextNotAString => "a note's `text` is not a JSON string"@,
            ReportError::HoldsNotAnObject => "a hello's `holds` is not a JSON object"@,
            ReportError::HoldsNotANumber(id) => "`holds` gives store "@ + id@
                + " an offset that is not a number"@,
        }
    }

    /// What the error says.
    pub fn message(&self) -> (r: String)
        ensures
            r@ == self.said(),
    {
        match self {
            ReportError::Truncated => text("consumer report truncated mid-record"),
            ReportError::Unmarked => text(
                "malformed consumer report: unmarked record. Every message begins with RS (0x1e), as timberfs-records(5) does",
            ),
            ReportError::OtherVersion(v) => text("a consumer speaks protocol version ").concat(
                debug_text(v.as_str()).as_str(),
            ).concat("; this timberfs speaks ").concat(debug_text("1").as_str()),
            ReportError::UnknownDiet(s) => text("a consumer asked to read ").concat(
                debug_text(s.as_str()).as_str(),
            ).concat(", which is not a diet this timberfs knows (records, chunks)"),
            ReportError::BeforeHello(kind) => text("a consumer sent ").concat(kind).concat(
                " before saying hello",
            ),
            ReportError::NoStore => text("a progress report names no store (id=)"),
            ReportError::NoOffset => text("a progress report carries no offset"),
            ReportError::OffsetNotANumber => text("a progress report's offset is not a number"),
            ReportError::NoText => text("a note carries no text"),
            ReportError::TextNotAString => text("a note's `text` is not a JSON string"),
            ReportError::HoldsNotAnObject => text("a hello's `holds` is not a JSON object"),
            ReportError::HoldsNotANumber(id) => text("`holds` gives store ").concat(
                id.as_str(),
            ).concat(" an offset that is not a number"),
        }
    }
}

// ------------------------------------------------------------------ reading

/// The value that the first field of the given key states, of the parts from
/// the `i`th on.
pub open spec fn field_from(parts: Seq<Seq<u8>>, i: int, key: Seq<char>) -> Option<Seq<char>>
    decreases parts.len() - i,
{
    if i >= parts.len() || i < 0 {
        None
    } else {
        match split_once(lossy(parts[i]), '=') {
            Some((k, v)) => if k == key {
                Some(v)
            } else {
                field_from(parts, i + 1, key)
            },
            None => field_from(parts, i + 1, key),
        }
    }
}

/// The value that a record states of a key.
pub open spec fn field_of(parts: Seq<Seq<u8>>, key: Seq<char>) -> Option<Seq<char>> {
    field_from(parts, 1, key)
}

/// The offsets of the first `n` members of an object.
pub open spec fn offsets_of(members: Seq<FieldModel>, n: int) -> Result<
    Seq<(Seq<char>, u64)>,
    ReportProblem,
>
    decreases n,
{
    if n <= 0 {
        Ok(Seq::empty())
    } else {
        match offsets_of(members, n - 1) {
            Err(e) => Err(e),
            Ok(done) => match members[n - 1].value {
                JsonModel::Whole(off) => Ok(done.push((members[n - 1].key, off))),
                _ => Err(ReportProblem::HoldsNotANumber(members[n - 1].key)),
            },
        }
    }
}

/// What a hello's `holds` says: one field, because the pairs are a map.
pub open spec fn holds_of(json: Option<Seq<FieldModel>>) -> Result<
    Seq<(Seq<char>, u64)>,
    ReportProblem,
> {
    match json {
        None => Err(ReportProblem::HoldsNotAnObject),
        Some(members) => offsets_of(members, members.len() as int),
    }
}

pub open spec fn hello_of(parts: Seq<Seq<u8>>) -> Result<ReportModel, ReportProblem> {
    let v = match field_of(parts, "v"@) {
        Some(v) => v,
        None => Seq::empty(),
    };
    let reads = match field_of(parts, "reads"@) {
        Some(r) => r,
        None => "records"@,
    };
    if v != "1"@ {
        Err(ReportProblem::OtherVersion(v))
    } else if diet_of(reads) is None {
        Err(ReportProblem::UnknownDiet(reads))
    } else {
        let holds = match field_of(parts, "holds"@) {
            None => Ok(Seq::empty()),
            Some(json) => holds_of(json_object(json)),
        };
        match holds {
            Err(e) => Err(e),
            Ok(holds) => Ok(ReportModel::Hello { reads: diet_of(reads)->Some_0, holds }),
        }
    }
}

pub open spec fn progress_of(parts: Seq<Seq<u8>>, said_hello: bool) -> Result<
    ReportModel,
    ReportProblem,
> {
    if !said_hello {
        Err(ReportProblem::BeforeHello("progress"@))
    } else {
        match field_of(parts, "id"@) {
            None => Err(ReportProblem::NoStore),
            Some(id) => match field_of(parts, "offset"@) {
                None => Err(ReportProblem::NoOffset),
                Some(o) => match parsed(o, u64::MAX as nat) {
                    None => Err(ReportProblem::OffsetNotANumber),
                    Some(n) => Ok(ReportModel::Progress { id, offset: n as u64 }),
                },
            },
        }
    }
}

pub open spec fn note_of(parts: Seq<Seq<u8>>, said_hello: bool) -> Result<
    ReportModel,
    ReportProblem,
> {
    if !said_hello {
        Err(ReportProblem::BeforeHello("note"@))
    } else {
        match field_of(parts, "text"@) {
            None => Err(ReportProblem::NoText),
            Some(json) => match json_string(json) {
                None => Err(ReportProblem::TextNotAString),
                Some(said) => Ok(
                    ReportModel::Note {
                        id: field_of(parts, "id"@),
                        offset: match field_of(parts, "offset"@) {
                            Some(o) => match parsed(o, u64::MAX as nat) {
                                Some(n) => Some(n as u64),
                                None => None,
                            },
                            None => None,
                        },
                        text: said,
                    },
                ),
            },
        }
    }
}

/// What a record, without its NUL, says: nothing for a kind that this build
/// does not know, so that the protocol can grow additively.
pub open spec fn record_said(raw: Seq<u8>, said_hello: bool) -> Result<
    Option<ReportModel>,
    ReportProblem,
> {
    if raw.len() == 0 || raw[0] != RS {
        Err(ReportProblem::Unmarked)
    } else {
        let parts = split_bytes(raw.skip(1), US);
        let got = if parts[0] == encode_utf8("hello"@) {
            hello_of(parts)
        } else if parts[0] == encode_utf8("progress"@) {
            progress_of(parts, said_hello)
        } else {
            note_of(parts, said_hello)
        };
        if parts[0] != encode_utf8("hello"@) && parts[0] != encode_utf8("progress"@) && parts[0]
            != encode_utf8("note"@) {
            Ok(None)
        } else {
            match got {
                Err(e) => Err(e),
                Ok(report) => Ok(Some(report)),
            }
        }
    }
}

/// The next message of a stream, the bytes that it and what was skipped before
/// it take, and whether a hello was said by then.
pub open spec fn next_said(data: Seq<u8>, said_hello: bool) -> Result<
    Option<(ReportModel, int, bool)>,
    ReportProblem,
>
    decreases data.len(),
{
    let k = find_byte(data, 0);
    if data.len() == 0 {
        Ok(None)
    } else if k < 0 || k >= data.len() {
        Err(ReportProblem::Truncated)
    } else {
        match record_said(data.take(k), said_hello) {
            Err(e) => Err(e),
            Ok(Some(report)) => Ok(Some((report, k + 1, said_hello || report is Hello))),
            Ok(None) => match next_said(data.skip(k + 1), said_hello) {
                Ok(Some((report, used, hello))) => Ok(Some((report, k + 1 + used, hello))),
                other => other,
            },
        }
    }
}

/// How many bytes of a stream are read to find its next message: those of the
/// first record that is one or should be, and of the unknown ones before it;
/// all there are, where there is none such.
pub open spec fn bytes_taken(data: Seq<u8>, said_hello: bool) -> int
    decreases data.len(),
{
    let k = find_byte(data, 0);
    if k < 0 || k >= data.len() {
        data.len() as int
    } else {
        match record_said(data.take(k), said_hello) {
            Ok(None) => k + 1 + bytes_taken(data.skip(k + 1), said_hello),
            _ => k + 1,
        }
    }
}

fn field<'a>(fields: &'a Vec<(String, String)>, key: &str) -> (r: Option<&'a str>)
    ensures
        match r {
            Some(v) => first_field(fields@, key@) == Some(v@),
            None => first_field(fields@, key@) is None,
        },
{
    let mut i: usize = 0;
    assert(fields@.skip(0) =~= fields@);
    while i < fields.len()
        invariant
            i <= fields@.len(),
            first_field(fields@.skip(i as int), key@) == first_field(fields@, key@),
        decreases fields@.len() - i,
    {
        assert(fields@.skip(i as int).drop_first() =~= fields@.skip(i + 1));
        if same(fields[i].0.as_str(), key) {
            return Some(fields[i].1.as_str());
        }
        i = i + 1;
    }
    None
}

spec fn first_field(fields: Seq<(String, String)>, key: Seq<char>) -> Option<Seq<char>>
    decreases fields.len(),
{
    if fields.len() == 0 {
        None
    } else if fields[0].0@ == key {
        Some(fields[0].1@)
    } else {
        first_field(fields.drop_first(), key)
    }
}

proof fn lemma_first_field_push(fields: Seq<(String, String)>, f: (String, String), key: Seq<char>)
    ensures
        first_field(fields.push(f), key) == (match first_field(fields, key) {
            Some(v) => Some(v),
            None => if f.0@ == key {
                Some(f.1@)
            } else {
                None
            },
        }),
    decreases fields.len(),
{
    let all = fields.push(f);
    if fields.len() > 0 {
        lemma_first_field_push(fields.drop_first(), f, key);
        assert(all.drop_first() =~= fields.drop_first().push(f));
    } else {
        assert(all.drop_first() =~= Seq::empty());
        assert(first_field(Seq::empty(), key) is None);
    }
}

/// The fields of a record's parts.
fn fields_of(parts: &Vec<Vec<u8>>) -> (r: Vec<(String, String)>)
    requires
        parts@.len() > 0,
    ensures
        forall|key: Seq<char>| #[trigger]
            first_field(r@, key) == field_of(byte_texts(parts@), key),
{
    let ghost all = byte_texts(parts@);
    let mut out: Vec<(String, String)> = Vec::new();
    let mut i: usize = 1;
    while i < parts.len()
        invariant
            1 <= i <= parts@.len(),
            all == byte_texts(parts@),
            forall|key: Seq<char>| #[trigger]
                field_of(all, key) == (match first_field(out@, key) {
                    Some(v) => Some(v),
                    None => field_from(all, i as int, key),
                }),
        decreases parts@.len() - i,
    {
        let s = lossy_text(parts[i].as_slice());
        let cs = chars_of(s.as_str());
        let ghost was = out@;
        assert(all[i as int] == parts@[i as int]@);
        match split_at_char(cs.as_slice(), '=') {
            Some((k, v)) => {
                let f = (text_of(k), text_of(v));
                proof {
                    assert forall|key: Seq<char>| #[trigger] field_of(all, key) == (match first_field(
                        was.push(f),
                        key,
                    ) {
                        Some(v) => Some(v),
                        None => field_from(all, i + 1, key),
                    }) by {
                        lemma_first_field_push(was, f, key);
                    }
                }
                out.push(f);
            },
            None => {},
        }
        i = i + 1;
    }
    out
}

proof fn lemma_offsets_error(members: Seq<FieldModel>, n: int, k: int)
    requires
        0 <= n <= k,
        offsets_of(members, n) is Err,
    ensures
        offsets_of(members, k) == offsets_of(members, n),
    decreases k,
{
    if n < k {
        lemma_offsets_error(members, n, k - 1);
    }
}

/// The offsets that an object's members state, given what reading it came to.
#[verifier::loop_isolation(false)]
pub fn holds_from(members: Option<Vec<crate::json::Field>>) -> (r: Result<
    Vec<(String, u64)>,
    ReportError,
>)
    ensures
        ({
            let json = match members {
                Some(m) => Some(crate::json::field_models(m@)),
                None => None,
            };
            match r {
                Ok(holds) => holds_of(json) == Ok::<Seq<(Seq<char>, u64)>, ReportProblem>(
                    holds_model(holds@),
                ),
                Err(e) => holds_of(json) == Err::<Seq<(Seq<char>, u64)>, ReportProblem>(e@),
            }
        }),
{
    let members = match members {
        Some(m) => m,
        None => return Err(ReportError::HoldsNotAnObject),
    };
    let ghost all = crate::json::field_models(members@);
    let mut out: Vec<(String, u64)> = Vec::new();
    let mut i: usize = 0;
    assert(holds_model(out@) =~= Seq::empty());
    while i < members.len()
        invariant
            i <= members@.len(),
            all == crate::json::field_models(members@),
            offsets_of(all, i as int) == Ok::<Seq<(Seq<char>, u64)>, ReportProblem>(
                holds_model(out@),
            ),
        decreases members@.len() - i,
    {
        assert(all[i as int] == members@[i as int]@);
        let key = text(members[i].key.as_str());
        match &members[i].value {
            Json::Whole(off) => {
                let f = (key, *off);
                assert(holds_model(out@.push(f)) =~= holds_model(out@).push((f.0@, f.1)));
                out.push(f);
            },
            _ => {
                proof {
                    assert(offsets_of(all, i + 1) is Err);
                    lemma_offsets_error(all, i + 1, all.len() as int);
                }
                return Err(ReportError::HoldsNotANumber(key));
            },
        }
        i = i + 1;
    }
    Ok(out)
}

fn parse_holds(json: &str) -> (r: Result<Vec<(String, u64)>, ReportError>)
    ensures
        match r {
            Ok(holds) => holds_of(json_object(json@)) == Ok::<
                Seq<(Seq<char>, u64)>,
                ReportProblem,
            >(holds_model(holds@)),
            Err(e) => holds_of(json_object(json@)) == Err::<Seq<(Seq<char>, u64)>, ReportProblem>(
                e@,
            ),
        },
{
    holds_from(crate::json::read_object(json))
}

fn parse_hello(parts: &Vec<Vec<u8>>) -> (r: Result<Report, ReportError>)
    requires
        parts@.len() > 0,
    ensures
        match r {
            Ok(report) => hello_of(byte_texts(parts@)) == Ok::<ReportModel, ReportProblem>(
                report@,
            ) && report is Hello,
            Err(e) => hello_of(byte_texts(parts@)) == Err::<ReportModel, ReportProblem>(e@),
        },
{
    let fields = fields_of(parts);
    let v: String = match field(&fields, "v") {
        Some(v) => text(v),
        None => {
            let s = String::new();
            assert(s@ =~= Seq::empty());
            s
        },
    };
    if !same(v.as_str(), VERSION) {
        return Err(ReportError::OtherVersion(v));
    }
    let reads = match field(&fields, "reads") {
        Some(s) => Diet::parse(s),
        None => Diet::parse("records"),
    };
    let reads: Diet = match reads {
        Ok(d) => d,
        Err(e) => return Err(e),
    };
    let holds = match field(&fields, "holds") {
        None => {
            let none: Vec<(String, u64)> = Vec::new();
            assert(holds_model(none@) =~= Seq::empty());
            none
        },
        Some(json) => match parse_holds(json) {
            Ok(h) => h,
            Err(e) => return Err(e),
        },
    };
    Ok(Report::Hello { reads, holds })
}

fn parse_progress(parts: &Vec<Vec<u8>>, said_hello: bool) -> (r: Result<Report, ReportError>)
    requires
        parts@.len() > 0,
    ensures
        match r {
            Ok(report) => progress_of(byte_texts(parts@), said_hello) == Ok::<
                ReportModel,
                ReportProblem,
            >(report@) && !(report is Hello),
            Err(e) => progress_of(byte_texts(parts@), said_hello) == Err::<
                ReportModel,
                ReportProblem,
            >(e@),
        },
{
    // A message before the hello is refused rather than acted on: a position
    // must not move on the word of something that never said so.
    if !said_hello {
        return Err(ReportError::BeforeHello("progress"));
    }
    let fields = fields_of(parts);
    let id = match field(&fields, "id") {
        Some(id) => text(id),
        None => return Err(ReportError::NoStore),
    };
    match field(&fields, "offset") {
        None => Err(ReportError::NoOffset),
        Some(o) => match parse_u64(chars_of(o).as_slice()) {
            Some(offset) => Ok(Report::Progress { id, offset }),
            None => Err(ReportError::OffsetNotANumber),
        },
    }
}

fn parse_note(parts: &Vec<Vec<u8>>, said_hello: bool) -> (r: Result<Report, ReportError>)
    requires
        parts@.len() > 0,
    ensures
        match r {
            Ok(report) => note_of(byte_texts(parts@), said_hello) == Ok::<
                ReportModel,
                ReportProblem,
            >(report@) && !(report is Hello),
            Err(e) => note_of(byte_texts(parts@), said_hello) == Err::<ReportModel, ReportProblem>(
                e@,
            ),
        },
{
    if !said_hello {
        return Err(ReportError::BeforeHello("note"));
    }
    let fields = fields_of(parts);
    let said = match field(&fields, "text") {
        None => return Err(ReportError::NoText),
        Some(json) => match read_string(json) {
            Some(s) => s,
            None => return Err(ReportError::TextNotAString),
        },
    };
    let id = match field(&fields, "id") {
        Some(id) => Some(text(id)),
        None => None,
    };
    let offset: Option<u64> = match field(&fields, "offset") {
        Some(o) => parse_u64(chars_of(o).as_slice()),
        None => None,
    };
    Ok(Report::Note { id, offset, text: said })
}

/// Reads a consumer's messages from the bytes that it has written.
pub struct Reader {
    data: Vec<u8>,
    at: usize,
    said_hello: bool,
}

/// What a reader has left to read, and whether it was greeted.
pub struct ReaderModel {
    pub rest: Seq<u8>,
    pub said_hello: bool,
}

impl View for Reader {
    type V = ReaderModel;

    closed spec fn view(&self) -> ReaderModel {
        ReaderModel {
            rest: self.data@.subrange(self.at as int, self.data@.len() as int),
            said_hello: self.said_hello,
        }
    }
}

impl Reader {
    /// Whether the reader stands within what it was given.
    pub closed spec fn wf(&self) -> bool {
        self.at <= self.data@.len()
    }

    /// A reader of the given bytes.
    pub fn new(data: &[u8]) -> (r: Reader)
        ensures
            r.wf(),
            r@.rest == data@,
            !r@.said_hello,
    {
        let r = Reader { data: slice_to_vec(data), at: 0, said_hello: false };
        assert(r@.rest =~= data@);
        r
    }

    /// More bytes, behind the ones that are there.
    pub fn extend(&mut self, more: &[u8])
        requires
            old(self).wf(),
        ensures
            final(self).wf(),
            final(self)@.rest == old(self)@.rest + more@,
            final(self)@.said_hello == old(self)@.said_hello,
    {
        let mut data: Vec<u8> = slice_to_vec(
            slice_subrange(self.data.as_slice(), self.at, self.data.len()),
        );
        data.extend_from_slice(more);
        self.data = data;
        self.at = 0;
        assert(self@.rest =~= old(self)@.rest + more@);
    }

    /// The next message, or `None` once there is nothing left. An unknown kind
    /// is skipped, and an unknown field likewise. A malformed record is an
    /// error and not a skip: a consumer that speaks garbage cannot be trusted
    /// with a position. Whatever comes back, what was read is behind the
    /// reader, and only a hello that was understood makes it a greeted one.
    pub fn next_report(&mut self) -> (r: Result<Option<Report>, ReportError>)
        requires
            old(self).wf(),
        ensures
            final(self).wf(),
            0 <= bytes_taken(old(self)@.rest, old(self)@.said_hello) <= old(self)@.rest.len(),
            final(self)@.rest == old(self)@.rest.skip(
                bytes_taken(old(self)@.rest, old(self)@.said_hello),
            ),
            match r {
                Ok(Some(report)) => match next_said(old(self)@.rest, old(self)@.said_hello) {
                    Ok(Some((m, used, hello))) => m == report@ && used == bytes_taken(
                        old(self)@.rest,
                        old(self)@.said_hello,
                    ) && final(self)@.said_hello == hello,
                    _ => false,
                },
                Ok(None) => next_said(old(self)@.rest, old(self)@.said_hello) == Ok::<
                    Option<(ReportModel, int, bool)>,
                    ReportProblem,
                >(None) && final(self)@.rest.len() == 0 && final(self)@.said_hello == old(
                    self,
                )@.said_hello,
                Err(e) => next_said(old(self)@.rest, old(self)@.said_hello) == Err::<
                    Option<(ReportModel, int, bool)>,
                    ReportProblem,
                >(e@) && final(self)@.said_hello == old(self)@.said_hello,
            },
    {
        let ghost start = self@.rest;
        let ghost hello = self@.said_hello;
        let ghost mut gone: int = 0;
        assert(start.skip(0) =~= start);
        while self.at < self.data.len()
            invariant
                self.at <= self.data@.len(),
                self.data@ == old(self).data@,
                self.said_hello == hello,
                0 <= gone <= start.len(),
                self.at == old(self).at + gone,
                start == old(self)@.rest,
                hello == old(self)@.said_hello,
                start == old(self).data@.subrange(
                    old(self).at as int,
                    old(self).data@.len() as int,
                ),
                old(self).at <= old(self).data@.len(),
                bytes_taken(start, hello) == gone + bytes_taken(start.skip(gone), hello),
                match next_said(start.skip(gone), hello) {
                    Ok(Some((m, used, h))) => next_said(start, hello) == Ok::<_, ReportProblem>(
                        Some((m, gone + used, h)),
                    ),
                    Ok(None) => next_said(start, hello) == Ok::<
                        Option<(ReportModel, int, bool)>,
                        ReportProblem,
                    >(None),
                    Err(e) => next_said(start, hello) == Err::<
                        Option<(ReportModel, int, bool)>,
                        ReportProblem,
                    >(e),
                },
            decreases self.data@.len() - self.at,
        {
            let rest: &[u8] = slice_subrange(self.data.as_slice(), self.at, self.data.len());
            assert(rest@ =~= start.skip(gone));
            let k: usize = position_of(rest, 0);
            if k == rest.len() {
                self.at = self.data.len();
                assert(self@.rest =~= start.skip(start.len() as int));
                return Err(ReportError::Truncated);
            }
            let next: usize = self.at + k + 1;
            self.at = next;
            proof {
                assert(rest@.skip(k + 1) =~= start.skip(gone + k + 1));
                assert(self@.rest =~= start.skip(gone + k + 1));
            }
            let raw: &[u8] = slice_subrange(rest, 0, k);
            assert(raw@ =~= rest@.take(k as int));
            if raw.len() == 0 || raw[0] != RS {
                return Err(ReportError::Unmarked);
            }
            let body: &[u8] = slice_subrange(raw, 1, raw.len());
            assert(body@ =~= raw@.skip(1));
            let parts = split(body, US);
            let kind: &[u8] = parts[0].as_slice();
            assert(byte_texts(parts@)[0] == kind@);
            if same_run(kind, "hello".as_bytes()) {
                return match parse_hello(&parts) {
                    Ok(report) => {
                        self.said_hello = true;
                        Ok(Some(report))
                    },
                    Err(e) => Err(e),
                };
            }
            if same_run(kind, "progress".as_bytes()) {
                return match parse_progress(&parts, self.said_hello) {
                    Ok(report) => Ok(Some(report)),
                    Err(e) => Err(e),
                };
            }
            if same_run(kind, "note".as_bytes()) {
                return match parse_note(&parts, self.said_hello) {
                    Ok(report) => Ok(Some(report)),
                    Err(e) => Err(e),
                };
            }
            // Additive growth: an unknown kind is not an error.
            proof {
                gone = gone + k + 1;
            }
        }
        assert(self@.rest =~= start.skip(start.len() as int));
        Ok(None)
    }
}

// ----------------------------------------------------------------- emitting

/// The bytes of a record: its text, then a NUL.
pub open spec fn record_bytes(s: Seq<char>) -> Seq<u8> {
    encode_utf8(s).push(0)
}

fn to_record(s: String) -> (r: Vec<u8>)
    ensures
        r@ == record_bytes(s@),
{
    let mut out: Vec<u8> = slice_to_vec(s.as_str().as_bytes());
    out.push(0);
    out
}

/// The text of a hello.
pub open spec fn hello_text(reads: Diet, holds: Option<Seq<FieldModel>>) -> Seq<char> {
    let head = "\u{1e}hello\u{1f}v=1\u{1f}reads="@ + reads.word();
    match holds {
        Some(members) => head + "\u{1f}holds="@ + json_members(members),
        None => head,
    }
}

/// The members that a list of offsets comes to, in the order of their stores,
/// the last offset of a store standing: nothing where there are none.
pub open spec fn is_held(holds: Seq<(Seq<char>, u64)>, members: Option<Seq<FieldModel>>) -> bool {
    match members {
        None => holds.len() == 0,
        Some(m) => {
            &&& holds.len() > 0
            &&& ordered(Seq::new(m.len(), |i: int| m[i].key))
            &&& fields_map(m) == fields_map(
                Seq::new(
                    holds.len(),
                    |i: int| FieldModel { key: holds[i].0, value: JsonModel::Whole(holds[i].1) },
                ),
            )
        },
    }
}

/// The offsets in the order of their stores, the last of each standing.
fn in_store_order(holds: &[(String, u64)]) -> (r: Vec<Whole>)
    ensures
        ordered(Seq::new(r@.len(), |i: int| r@[i].key@)),
        fields_map(whole_fields(r@)) == fields_map(
            Seq::new(
                holds@.len(),
                |i: int|
                    FieldModel { key: holds@[i].0@, value: JsonModel::Whole(holds@[i].1) },
            ),
        ),
{
    let ghost given = Seq::new(
        holds@.len(),
        |i: int| FieldModel { key: holds@[i].0@, value: JsonModel::Whole(holds@[i].1) },
    );
    let mut entries: Vec<crate::json::Field> = Vec::new();
    let mut i: usize = 0;
    while i < holds.len()
        invariant
            i <= holds@.len(),
            entries@.len() == i,
            given == Seq::new(
                holds@.len(),
                |i: int| FieldModel { key: holds@[i].0@, value: JsonModel::Whole(holds@[i].1) },
            ),
            forall|j: int| 0 <= j < i ==> (#[trigger] entries@[j])@ == given[j],
        decreases holds@.len() - i,
    {
        entries.push(
            crate::json::Field {
                key: text(holds[i].0.as_str()),
                value: Json::Whole(holds[i].1),
            },
        );
        i = i + 1;
    }
    assert(crate::json::field_models(entries@) =~= given);
    let map = Fields::of(entries);
    let keys = map.keys();
    let ghost names = texts(keys@);
    let mut r: Vec<Whole> = Vec::new();
    let mut k: usize = 0;
    proof {
        crate::json::lemma_whole_values(given);
    }
    while k < keys.len()
        invariant
            k <= keys@.len(),
            names == texts(keys@),
            map@ == fields_map(given),
            forall|t: Seq<char>| names.contains(t) <==> map@.contains_key(t),
            forall|t: Seq<char>| #[trigger] map@.contains_key(t) ==> map@[t] is Whole,
            r@.len() == k,
            forall|j: int|
                0 <= j < k ==> (#[trigger] r@[j]).key@ == names[j] && map@[names[j]]
                    == JsonModel::Whole(r@[j].number),
        decreases keys@.len() - k,
    {
        let key: &str = keys[k].as_str();
        assert(names[k as int] == key@);
        assert(names.contains(key@));
        let number: u64 = match map.whole_at(key) {
            Some(n) => n,
            None => 0,
        };
        r.push(Whole { key: text(key), number });
        k = k + 1;
    }
    proof {
        assert(Seq::new(r@.len(), |i: int| r@[i].key@) =~= names);
        crate::json::lemma_members_of(map@, whole_fields(r@), names);
    }
    r
}

/// The hello a consumer opens with. `holds` may be empty: most consumers know
/// nothing about what their destination already has.
pub fn hello(reads: Diet, holds: &[(String, u64)]) -> (r: Vec<u8>)
    ensures
        exists|members: Option<Seq<FieldModel>>|
            #[trigger] is_held(holds_model(holds@), members) && r@ == record_bytes(
                hello_text(reads, members),
            ) && reads_back(
                r@,
                ReportModel::Hello {
                    reads,
                    holds: match members {
                        Some(m) => wholes(m),
                        None => Seq::empty(),
                    },
                },
            ),
{
    let head = text("\u{1e}hello\u{1f}v=1\u{1f}reads=").concat(reads.as_str());
    if holds.len() == 0 {
        proof {
            assert(is_held(holds_model(holds@), None));
            a_hello_reads_back(reads, None);
        }
        return to_record(head);
    }
    let members = in_store_order(holds);
    let ghost m = whole_fields(members@);
    proof {
        assert(Seq::new(m.len(), |i: int| m[i].key) =~= Seq::new(
            members@.len(),
            |i: int| members@[i].key@,
        ));
        let h = holds_model(holds@);
        assert(Seq::new(
            h.len(),
            |i: int| FieldModel { key: h[i].0, value: JsonModel::Whole(h[i].1) },
        ) =~= Seq::new(
            holds@.len(),
            |i: int| FieldModel { key: holds@[i].0@, value: JsonModel::Whole(holds@[i].1) },
        ));
        assert(is_held(h, Some(m)));
    }
    let json = wholes_text(&members);
    proof {
        a_hello_reads_back(reads, Some(m));
    }
    to_record(head.concat("\u{1f}holds=").concat(json.as_str()))
}

/// The text of a progress report.
pub open spec fn progress_text(id: Seq<char>, offset: u64) -> Seq<char> {
    "\u{1e}progress\u{1f}id="@ + id + "\u{1f}offset="@ + decimal(offset as nat)
}

/// Move this store's position here.
pub fn progress(id: &str, offset: u64) -> (r: Vec<u8>)
    ensures
        r@ == record_bytes(progress_text(id@, offset)),
        clean(id@) ==> reads_back(r@, ReportModel::Progress { id: id@, offset }),
{
    proof {
        if clean(id@) {
            a_progress_report_reads_back(id@, offset);
        }
    }
    to_record(
        text("\u{1e}progress\u{1f}id=").concat(id).concat("\u{1f}offset=").concat(
            number_text(offset).as_str(),
        ),
    )
}

/// The text of a note.
pub open spec fn note_text(id: Option<Seq<char>>, offset: Option<u64>, said: Seq<char>) -> Seq<
    char,
> {
    "\u{1e}note"@ + (match id {
        Some(id) => "\u{1f}id="@ + id,
        None => Seq::empty(),
    }) + (match offset {
        Some(n) => "\u{1f}offset="@ + decimal(n as nat),
        None => Seq::empty(),
    }) + "\u{1f}text="@ + json_quoted(said)
}

/// Why nothing is moving, for an operator.
pub fn note(id: Option<&str>, offset: Option<u64>, said: &str) -> (r: Vec<u8>)
    ensures
        r@ == record_bytes(
            note_text(
                match id {
                    Some(id) => Some(id@),
                    None => None,
                },
                offset,
                said@,
            ),
        ),
        id is None || clean(id->Some_0@) ==> reads_back(
            r@,
            ReportModel::Note {
                id: match id {
                    Some(id) => Some(id@),
                    None => None,
                },
                offset,
                text: said@,
            },
        ),
{
    let ghost about: Option<Seq<char>> = match id {
        Some(id) => Some(id@),
        None => None,
    };
    let json = quote(said);
    proof {
        if about is None || clean(about->Some_0) {
            a_note_reads_back(about, offset, said@);
        }
    }
    let mut out = text("\u{1e}note");
    if let Some(id) = id {
        out = out.concat("\u{1f}id=").concat(id);
    }
    let ghost a = out@;
    assert(a =~= "\u{1e}note"@ + (match id {
        Some(id) => "\u{1f}id="@ + id@,
        None => Seq::empty(),
    }));
    if let Some(n) = offset {
        out = out.concat("\u{1f}offset=").concat(number_text(n).as_str());
    }
    assert(out@ =~= a + (match offset {
        Some(n) => "\u{1f}offset="@ + decimal(n as nat),
        None => Seq::empty(),
    }));
    to_record(out.concat("\u{1f}text=").concat(json.as_str()))
}

} // verus!
