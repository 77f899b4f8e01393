//! The sending end of replication: which stores have a stream, what each of
//! them ships next, and what the far end is known to hold.

use crate::declaration::has_path;
use crate::follower::{
    advanced_places, place_in, place_models, Matched, PlaceModel, Positions,
};
use crate::frame::{uuid_string, Frame, FrameModel, Framed, Run};
use crate::frames::nobody;
use crate::paths::{join as join_path, joined_path, same_path};
use crate::registration::{nothing_said, say};
use crate::text::{copy_texts, join, joined, same, text, texts};
use crate::uuid::uuid_chars;
use vstd::prelude::*;
use vstd::string::StringExecFns;

verus! {

/// What is sent: one store, or whatever a predicate matches.
#[derive(Debug, Clone, PartialEq, Eq)]
pub enum Sources {
    One(String),
    Select { select: String, look_in: Vec<String> },
}

/// What is sent, in words, where the configured forests are those given.
pub open spec fn described(s: Sources, forests: Seq<Seq<char>>) -> Seq<char> {
    match s {
        Sources::One(p) => p@,
        Sources::Select { select, look_in } => {
            let dirs = forests + texts(look_in@);
            if dirs.len() == 0 {
                select@ + " (no forest is configured and no --look-in was given)"@
            } else {
                select@ + " in "@ + joined(dirs, ", "@)
            }
        },
    }
}

impl Sources {
    /// What is sent, in words.
    pub fn describe(&self, forests: &Vec<String>) -> (r: String)
        ensures
            r@ == described(*self, texts(forests@)),
    {
        match self {
            Sources::One(p) => text(p.as_str()),
            Sources::Select { select, look_in } => {
                let mut dirs = copy_texts(forests);
                let ghost head = texts(dirs@);
                let ghost tail = texts(look_in@);
                let mut i: usize = 0;
                proof {
                    assert(texts(dirs@) =~= head + tail.take(0));
                }
                while i < look_in.len()
                    invariant
                        i <= look_in@.len(),
                        tail == texts(look_in@),
                        texts(dirs@) == head + tail.take(i as int),
                    decreases look_in@.len() - i,
                {
                    say(&mut dirs, text(look_in[i].as_str()));
                    i = i + 1;
                    proof {
                        assert(texts(dirs@) =~= head + tail.take(i as int));
                    }
                }
                proof {
                    assert(tail.take(i as int) =~= tail);
                    assert(texts(dirs@).len() == dirs@.len());
                }
                if dirs.len() == 0 {
                    text(select.as_str()).concat(
                        " (no forest is configured and no --look-in was given)",
                    )
                } else {
                    text(select.as_str()).concat(" in ").concat(join(&dirs, ", ").as_str())
                }
            },
        }
    }
}

/// How a sender sends.
#[derive(Debug, Clone, PartialEq, Eq)]
pub struct SendOpts {
    pub endpoint: String,
    pub sidecars: bool,
    pub timeout_ms: u64,
    pub follow: bool,
    pub poll_ms: u64,
    pub positions: Option<String>,
}

impl SendOpts {
    /// Sending to an endpoint, once.
    pub fn to(endpoint: &str) -> (r: SendOpts)
        ensures
            r.endpoint@ == endpoint@,
            r.sidecars,
            r.timeout_ms == 30_000,
            !r.follow,
            r.poll_ms == 1_000,
            r.positions is None,
    {
        SendOpts {
            endpoint: text(endpoint),
            sidecars: true,
            timeout_ms: 30_000,
            follow: false,
            poll_ms: 1_000,
            positions: None,
        }
    }
}

// --------------------------------------------------------------------- sent

/// What one stream sent.
#[derive(Debug, Clone, PartialEq, Eq)]
pub struct StreamSent {
    pub store: String,
    pub path: String,
    pub chunks: u64,
    pub comp_bytes: u64,
    /// What the far end held when the stream was accepted.
    pub accepted_at: Vec<Run>,
    /// What the far end said last that it holds.
    pub acked: Vec<Run>,
    pub skipped_already_held: u64,
}

/// A store that the far end refused.
#[derive(Debug, Clone, PartialEq, Eq)]
pub struct Refused {
    pub path: String,
    pub reason: String,
}

/// What a sender sent.
#[derive(Debug, Clone, PartialEq, Eq)]
pub struct Sent {
    pub streams: Vec<StreamSent>,
    pub refused: Vec<Refused>,
    /// Stores without an identity, which cannot be replicated.
    pub unidentified: Vec<String>,
}

impl Default for Sent {
    fn default() -> (r: Sent)
        ensures
            r.streams@.len() == 0,
            r.refused@.len() == 0,
            r.unidentified@.len() == 0,
    {
        Sent { streams: Vec::new(), refused: Vec::new(), unidentified: Vec::new() }
    }
}

/// How many chunks a list of streams sent.
pub open spec fn all_chunks(v: Seq<StreamSent>) -> nat
    decreases v.len(),
{
    if v.len() == 0 {
        0
    } else {
        all_chunks(v.drop_last()) + v.last().chunks as nat
    }
}

/// How many compressed bytes a list of streams sent.
pub open spec fn all_bytes(v: Seq<StreamSent>) -> nat
    decreases v.len(),
{
    if v.len() == 0 {
        0
    } else {
        all_bytes(v.drop_last()) + v.last().comp_bytes as nat
    }
}

/// How many chunks the far end of a list of streams held already.
pub open spec fn all_held(v: Seq<StreamSent>) -> nat
    decreases v.len(),
{
    if v.len() == 0 {
        0
    } else {
        all_held(v.drop_last()) + v.last().skipped_already_held as nat
    }
}

proof fn lemma_sums_grow(v: Seq<StreamSent>, k: int)
    requires
        0 <= k <= v.len(),
    ensures
        all_chunks(v.take(k)) <= all_chunks(v),
        all_bytes(v.take(k)) <= all_bytes(v),
        all_held(v.take(k)) <= all_held(v),
    decreases v.len(),
{
    if k == v.len() {
        assert(v.take(k) =~= v);
    } else {
        assert(v.drop_last().take(k) =~= v.take(k));
        lemma_sums_grow(v.drop_last(), k);
    }
}

impl Sent {
    /// How many chunks were sent.
    pub fn chunks(&self) -> (n: u64)
        requires
            all_chunks(self.streams@) <= u64::MAX,
        ensures
            n == all_chunks(self.streams@),
    {
        let mut n: u64 = 0;
        let mut i: usize = 0;
        while i < self.streams.len()
            invariant
                i <= self.streams@.len(),
                all_chunks(self.streams@) <= u64::MAX,
                n == all_chunks(self.streams@.take(i as int)),
            decreases self.streams@.len() - i,
        {
            proof {
                assert(self.streams@.take(i + 1).drop_last() =~= self.streams@.take(i as int));
                lemma_sums_grow(self.streams@, i + 1);
            }
            n = n + self.streams[i].chunks;
            i = i + 1;
        }
        proof {
            assert(self.streams@.take(i as int) =~= self.streams@);
        }
        n
    }

    /// How many compressed bytes were sent.
    pub fn comp_bytes(&self) -> (n: u64)
        requires
            all_bytes(self.streams@) <= u64::MAX,
        ensures
            n == all_bytes(self.streams@),
    {
        let mut n: u64 = 0;
        let mut i: usize = 0;
        while i < self.streams.len()
            invariant
                i <= self.streams@.len(),
                all_bytes(self.streams@) <= u64::MAX,
                n == all_bytes(self.streams@.take(i as int)),
            decreases self.streams@.len() - i,
        {
            proof {
                assert(self.streams@.take(i + 1).drop_last() =~= self.streams@.take(i as int));
                lemma_sums_grow(self.streams@, i + 1);
            }
            n = n + self.streams[i].comp_bytes;
            i = i + 1;
        }
        proof {
            assert(self.streams@.take(i as int) =~= self.streams@);
        }
        n
    }

    /// How many chunks the far end held already.
    pub fn skipped_already_held(&self) -> (n: u64)
        requires
            all_held(self.streams@) <= u64::MAX,
        ensures
            n == all_held(self.streams@),
    {
        let mut n: u64 = 0;
        let mut i: usize = 0;
        while i < self.streams.len()
            invariant
                i <= self.streams@.len(),
                all_held(self.streams@) <= u64::MAX,
                n == all_held(self.streams@.take(i as int)),
            decreases self.streams@.len() - i,
        {
            proof {
                assert(self.streams@.take(i + 1).drop_last() =~= self.streams@.take(i as int));
                lemma_sums_grow(self.streams@, i + 1);
            }
            n = n + self.streams[i].skipped_already_held;
            i = i + 1;
        }
        proof {
            assert(self.streams@.take(i as int) =~= self.streams@);
        }
        n
    }
}

// ------------------------------------------------------------------ sources

/// A store that can be sent.
#[derive(Debug, Clone, PartialEq, Eq)]
pub struct Source {
    pub id: String,
    pub path: String,
}

/// What a source is.
pub struct SourceModel {
    pub id: Seq<char>,
    pub path: Seq<char>,
}

/// What a list of sources is.
pub open spec fn source_models(v: Seq<Source>) -> Seq<SourceModel> {
    Seq::new(v.len(), |i: int| SourceModel { id: v[i].id@, path: v[i].path@ })
}

/// The matched stores that have an identity.
pub open spec fn identified(v: Seq<Matched>) -> Seq<SourceModel>
    decreases v.len(),
{
    if v.len() == 0 {
        Seq::empty()
    } else {
        let front = identified(v.drop_last());
        match v.last().id {
            Some(id) => front.push(
                SourceModel { id: id@, path: join_path(v.last().dir@, v.last().name@) },
            ),
            None => front,
        }
    }
}

/// The paths of the matched stores that have none.
pub open spec fn nameless(v: Seq<Matched>) -> Seq<Seq<char>>
    decreases v.len(),
{
    if v.len() == 0 {
        Seq::empty()
    } else {
        let front = nameless(v.drop_last());
        match v.last().id {
            Some(_) => front,
            None => front.push(join_path(v.last().dir@, v.last().name@)),
        }
    }
}

/// The matched stores that can be sent, and the paths of those that cannot.
pub fn sort_sources(matched: &Vec<Matched>) -> (r: (Vec<Source>, Vec<String>))
    ensures
        source_models(r.0@) == identified(matched@),
        texts(r.1@) == nameless(matched@),
{
    let mut out: Vec<Source> = Vec::new();
    let mut rest = nothing_said();
    let mut i: usize = 0;
    proof {
        assert(source_models(out@) =~= Seq::empty());
        assert(matched@.take(0) =~= Seq::empty());
    }
    while i < matched.len()
        invariant
            i <= matched@.len(),
            source_models(out@) == identified(matched@.take(i as int)),
            texts(rest@) == nameless(matched@.take(i as int)),
        decreases matched@.len() - i,
    {
        proof {
            assert(matched@.take(i + 1).drop_last() =~= matched@.take(i as int));
        }
        let m = &matched[i];
        let path = joined_path(m.dir.as_str(), m.name.as_str());
        match &m.id {
            Some(id) => {
                let ghost was = out@;
                let s = Source { id: text(id.as_str()), path };
                out.push(s);
                proof {
                    assert(source_models(out@) =~= source_models(was).push(
                        (SourceModel { id: s.id@, path: s.path@ }),
                    ));
                }
            },
            None => {
                say(&mut rest, path);
            },
        }
        i = i + 1;
    }
    proof {
        assert(matched@.take(i as int) =~= matched@);
    }
    (out, rest)
}

/// What is said of a store without an identity.
pub open spec fn unidentified_said(path: Seq<char>) -> Seq<char> {
    "timberfs: "@ + path + " carries no identity, so it cannot be replicated (`timberfs identity "@
        + path + " --mint`)"@
}

/// The paths that were told, with those that were not told before.
pub open spec fn told(known: Seq<Seq<char>>, found: Seq<Seq<char>>) -> Seq<Seq<char>>
    decreases found.len(),
{
    if found.len() == 0 {
        known
    } else {
        let front = told(known, found.drop_last());
        if exists|i: int| 0 <= i < front.len() && same_path(#[trigger] front[i], found.last()) {
            front
        } else {
            front.push(found.last())
        }
    }
}

/// What is said of a list of stores without an identity.
pub open spec fn unidentified_notes(paths: Seq<Seq<char>>) -> Seq<Seq<char>> {
    Seq::new(paths.len(), |i: int| unidentified_said(paths[i]))
}

/// Notes the stores that have no identity, and says so of each once.
pub fn note_unidentified(out: &mut Sent, found: &Vec<String>) -> (r: Vec<String>)
    ensures
        texts(final(out).unidentified@) == told(texts(old(out).unidentified@), texts(found@)),
        texts(r@) == unidentified_notes(
            texts(final(out).unidentified@).skip(old(out).unidentified@.len() as int),
        ),
        final(out).streams == old(out).streams,
        final(out).refused == old(out).refused,
{
    let ghost known = texts(out.unidentified@);
    let ghost all = texts(found@);
    let ghost n = out.unidentified@.len() as int;
    let mut notes = nothing_said();
    let mut i: usize = 0;
    proof {
        assert(all.take(0) =~= Seq::empty());
        assert(unidentified_notes(known.skip(n)) =~= Seq::<Seq<char>>::empty());
    }
    while i < found.len()
        invariant
            i <= found@.len(),
            all == texts(found@),
            n == old(out).unidentified@.len(),
            n <= out.unidentified@.len(),
            known == texts(old(out).unidentified@),
            texts(out.unidentified@) == told(known, all.take(i as int)),
            texts(notes@) == unidentified_notes(texts(out.unidentified@).skip(n)),
            out.streams == old(out).streams,
            out.refused == old(out).refused,
        decreases found@.len() - i,
    {
        proof {
            assert(all.take(i + 1).drop_last() =~= all.take(i as int));
            assert(all.take(i + 1).last() == found@[i as int]@);
        }
        if !has_path(&out.unidentified, found[i].as_str()) {
            let path = text(found[i].as_str());
            let ghost was = texts(out.unidentified@);
            let ghost spoken = texts(notes@);
            say(
                &mut notes,
                text("timberfs: ").concat(path.as_str()).concat(
                    " carries no identity, so it cannot be replicated (`timberfs identity ",
                ).concat(path.as_str()).concat(" --mint`)"),
            );
            say(&mut out.unidentified, path);
            proof {
                let now = texts(out.unidentified@);
                assert(now =~= was.push(path@));
                assert(now.skip(n) =~= was.skip(n).push(path@));
                assert(unidentified_notes(now.skip(n)) =~= spoken.push(unidentified_said(path@)));
            }
        }
        i = i + 1;
    }
    proof {
        assert(all.take(i as int) =~= all);
    }
    notes
}

// ------------------------------------------------------------------ streams

/// The last chunk that was sent.
#[derive(Debug, Clone, Copy, PartialEq, Eq, Structural)]
pub struct LastSent {
    pub seq: u64,
    pub offset: u64,
    pub last_write_ms: u64,
}

/// One store's stream.
#[derive(Debug, Clone, PartialEq, Eq)]
pub struct Stream {
    /// Its number on the connection.
    pub wire: u32,
    /// The store's identity.
    pub store: String,
    pub path: String,
    /// The first chunk that was not looked at yet.
    pub resume: u64,
    /// What the far end said last that it holds.
    pub acked: Vec<Run>,
    /// What it held when the stream was accepted.
    pub accepted_at: Vec<Run>,
    pub last_sent: Option<LastSent>,
    pub chunks: u64,
    pub comp_bytes: u64,
    pub skipped: u64,
    /// How many chunks were sent that no recorded place counts.
    pub undeclared: u64,
}

/// Whether a store is among the sources.
pub open spec fn is_source(sources: Seq<Source>, id: Seq<char>) -> bool {
    exists|i: int| 0 <= i < sources.len() && (#[trigger] sources[i]).id@ == id
}

/// The streams whose store is still among the sources.
pub open spec fn staying(live: Seq<Stream>, sources: Seq<Source>) -> Seq<Stream>
    decreases live.len(),
{
    if live.len() == 0 {
        Seq::empty()
    } else {
        let front = staying(live.drop_last(), sources);
        if is_source(sources, live.last().store@) {
            front.push(live.last())
        } else {
            front
        }
    }
}

/// The numbers of the streams whose store is not.
pub open spec fn closing(live: Seq<Stream>, sources: Seq<Source>) -> Seq<u32>
    decreases live.len(),
{
    if live.len() == 0 {
        Seq::empty()
    } else {
        let front = closing(live.drop_last(), sources);
        if is_source(sources, live.last().store@) {
            front
        } else {
            front.push(live.last().wire)
        }
    }
}

fn among(sources: &Vec<Source>, id: &str) -> (r: bool)
    ensures
        r == is_source(sources@, id@),
{
    let mut i: usize = 0;
    while i < sources.len()
        invariant
            i <= sources@.len(),
            forall|j: int| 0 <= j < i ==> (#[trigger] sources@[j]).id@ != id@,
        decreases sources@.len() - i,
    {
        if same(sources[i].id.as_str(), id) {
            return true;
        }
        i = i + 1;
    }
    false
}

/// Takes out the streams whose store left the selection, and gives the numbers
/// that are to be closed.
pub fn close_missing(live: Vec<Stream>, sources: &Vec<Source>) -> (r: (Vec<Stream>, Vec<u32>))
    ensures
        r.0@ == staying(live@, sources@),
        r.1@ == closing(live@, sources@),
{
    let ghost all = live@;
    let mut kept: Vec<Stream> = Vec::new();
    let mut closed: Vec<u32> = Vec::new();
    proof {
        assert(kept@ =~= Seq::<Stream>::empty());
        assert(closed@ =~= Seq::<u32>::empty());
        assert(all.take(0) =~= Seq::empty());
    }
    for s in it: live
        invariant
            it.seq() == all,
            kept@ == staying(all.take(it.index() as int), sources@),
            closed@ == closing(all.take(it.index() as int), sources@),
    {
        proof {
            let k = it.index() as int;
            assert(all.take(k + 1).drop_last() =~= all.take(k));
            assert(all.take(k + 1).last() == s);
        }
        if among(sources, s.store.as_str()) {
            kept.push(s);
        } else {
            closed.push(s.wire);
        }
    }
    proof {
        assert(all.take(all.len() as int) =~= all);
    }
    (kept, closed)
}

/// Whether a store has a stream.
pub open spec fn has_stream(live: Seq<Stream>, id: Seq<char>) -> bool {
    exists|i: int| 0 <= i < live.len() && (#[trigger] live[i]).store@ == id
}

/// Whether a store needs a stream opened: it has none, and was not refused
/// before.
pub fn needs_stream(live: &Vec<Stream>, refused: &Vec<String>, id: &str) -> (r: bool)
    ensures
        r == (!has_stream(live@, id@) && !texts(refused@).contains(id@)),
{
    let mut i: usize = 0;
    while i < live.len()
        invariant
            i <= live@.len(),
            forall|j: int| 0 <= j < i ==> (#[trigger] live@[j]).store@ != id@,
        decreases live@.len() - i,
    {
        if same(live[i].store.as_str(), id) {
            return false;
        }
        i = i + 1;
    }
    let mut k: usize = 0;
    while k < refused.len()
        invariant
            k <= refused@.len(),
            forall|j: int| 0 <= j < k ==> (#[trigger] refused@[j])@ != id@,
        decreases refused@.len() - k,
    {
        if same(refused[k].as_str(), id) {
            assert(texts(refused@)[k as int] == id@);
            return false;
        }
        k = k + 1;
    }
    assert forall|j: int| 0 <= j < texts(refused@).len() implies texts(refused@)[j] != id@ by {
        assert(refused@[j]@ != id@);
    }
    true
}

/// What the far end answered to an opening.
#[derive(Debug, Clone, PartialEq, Eq)]
pub enum Answer {
    /// Accepted, with what the far end holds already.
    Accepted(Vec<Run>),
    /// Refused, and why.
    Refused(String),
    /// The frame is no answer to this opening.
    Other,
}

/// Why an opening was refused, with the origin that holds its destination,
/// where that is told.
pub open spec fn refusal_said(reason: Seq<char>, holder: Seq<u8>) -> Seq<char> {
    reason + (if holder == nobody() {
        ""@
    } else {
        " (held by origin "@ + uuid_chars(holder) + ")"@
    })
}

fn is_nobody(b: &[u8; 16]) -> (r: bool)
    ensures
        r == (b@ == nobody()),
{
    let mut i: usize = 0;
    while i < 16
        invariant
            i <= 16,
            forall|j: int| 0 <= j < i ==> b@[j] == 0,
        decreases 16 - i,
    {
        if b[i] != 0 {
            assert(nobody()[i as int] == 0);
            return false;
        }
        i = i + 1;
    }
    assert(b@ =~= nobody());
    true
}

/// What the far end answered to the opening of a stream.
pub fn answer(f: Framed, wire: u32) -> (r: Answer)
    ensures
        if f.stream != wire {
            r is Other
        } else {
            match f@.frame {
                FrameModel::Accepted { registration_id: _, runs } => r matches Answer::Accepted(v)
                    && v@ == runs,
                FrameModel::Conflict { holder_origin, runs: _, reason } => r matches
                    Answer::Refused(s) && s@ == refusal_said(reason, holder_origin),
                _ => r is Other,
            }
        },
        r is Accepted ==> f.stream == wire && f@.frame is Accepted
            && r->Accepted_0@ == f@.frame->Accepted_runs,
        f.stream == wire && f@.frame is Accepted ==> r is Accepted,
        r is Refused <==> f.stream == wire && f@.frame is Conflict,
{
    if f.stream != wire {
        return Answer::Other;
    }
    match f.frame {
        Frame::Accepted { registration_id: _, runs } => Answer::Accepted(runs),
        Frame::Conflict { holder_origin, runs: _, reason } => {
            if is_nobody(&holder_origin) {
                Answer::Refused(reason.concat(""))
            } else {
                Answer::Refused(
                    reason.concat(" (held by origin ").concat(
                        uuid_string(&holder_origin).as_str(),
                    ).concat(")"),
                )
            }
        },
        _ => Answer::Other,
    }
}

/// The first chunk past everything that is held.
pub open spec fn past_all(runs: Seq<Run>) -> int
    decreases runs.len(),
{
    if runs.len() == 0 {
        0
    } else {
        let front = past_all(runs.drop_last());
        if runs.last().end + 1 > front {
            runs.last().end + 1
        } else {
            front
        }
    }
}

fn resume_point(runs: &Vec<Run>) -> (r: u64)
    requires
        forall|i: int| 0 <= i < runs@.len() ==> (#[trigger] runs@[i]).end < u64::MAX,
    ensures
        r == past_all(runs@),
        forall|i: int| 0 <= i < runs@.len() ==> (#[trigger] runs@[i]).end < r,
        runs@.len() == 0 ==> r == 0,
        runs@.len() > 0 ==> exists|i: int|
            0 <= i < runs@.len() && r == (#[trigger] runs@[i]).end + 1,
{
    let mut r: u64 = 0;
    let mut i: usize = 0;
    while i < runs.len()
        invariant
            i <= runs@.len(),
            forall|i: int| 0 <= i < runs@.len() ==> (#[trigger] runs@[i]).end < u64::MAX,
            r == past_all(runs@.take(i as int)),
        decreases runs@.len() - i,
    {
        proof {
            assert(runs@.take(i + 1).drop_last() =~= runs@.take(i as int));
            assert(runs@[i as int].end < u64::MAX);
        }
        if runs[i].end + 1 > r {
            r = runs[i].end + 1;
        }
        i = i + 1;
    }
    proof {
        assert(runs@.take(i as int) =~= runs@);
        the_resume_point_is_the_first_that_is_not_held(runs@);
    }
    r
}

/// The stream of a store that was accepted: it resumes past what the far end
/// holds, which counts as skipped.
pub fn opened(wire: u32, source: &Source, runs: Vec<Run>) -> (s: Stream)
    requires
        forall|i: int| 0 <= i < runs@.len() ==> (#[trigger] runs@[i]).end < u64::MAX,
    ensures
        s.wire == wire,
        s.store@ == source.id@,
        s.path@ == source.path@,
        s.resume == past_all(runs@),
        forall|i: int| 0 <= i < runs@.len() ==> (#[trigger] runs@[i]).end < s.resume,
        runs@.len() == 0 ==> s.resume == 0,
        runs@.len() > 0 ==> exists|i: int|
            0 <= i < runs@.len() && s.resume == (#[trigger] runs@[i]).end + 1,
        s.accepted_at@ == runs@,
        s.acked@.len() == 0,
        s.last_sent is None,
        s.chunks == 0,
        s.comp_bytes == 0,
        s.skipped == past_all(runs@),
        s.undeclared == 0,
{
    let resume: u64 = resume_point(&runs);
    Stream {
        wire,
        store: text(source.id.as_str()),
        path: text(source.path.as_str()),
        resume,
        acked: Vec::new(),
        accepted_at: runs,
        last_sent: None,
        chunks: 0,
        comp_bytes: 0,
        skipped: resume,
        undeclared: 0,
    }
}

/// What serving a stream's turn came to.
#[derive(Debug, Clone, Copy, PartialEq, Eq, Structural)]
pub struct Served {
    pub chunks: u64,
    pub comp_bytes: u64,
    /// The last chunk that was looked at, sent or not.
    pub last_examined: Option<u64>,
    pub last_sent: Option<LastSent>,
}

/// Where a stream resumes after a turn: past what was looked at, and never
/// before where it was.
pub open spec fn resumes(resume: u64, last_examined: Option<u64>) -> int {
    match last_examined {
        Some(seq) => if seq + 1 > resume {
            seq + 1
        } else {
            resume as int
        },
        None => resume as int,
    }
}

/// Counts a turn. One that sent nothing still resumes past what it looked at.
pub fn ship_turn(s: &mut Stream, served: &Served) -> (r: u64)
    requires
        served.last_examined matches Some(seq) ==> seq < u64::MAX,
        old(s).chunks + served.chunks <= u64::MAX,
        old(s).comp_bytes + served.comp_bytes <= u64::MAX,
        old(s).undeclared + served.chunks <= u64::MAX,
    ensures
        r == served.chunks,
        final(s).resume == resumes(old(s).resume, served.last_examined),
        final(s).chunks == old(s).chunks + served.chunks,
        final(s).comp_bytes == (if served.chunks == 0 {
            old(s).comp_bytes
        } else {
            (old(s).comp_bytes + served.comp_bytes) as u64
        }),
        final(s).undeclared == old(s).undeclared + served.chunks,
        final(s).last_sent == (if served.chunks > 0 && served.last_sent is Some {
            served.last_sent
        } else {
            old(s).last_sent
        }),
        final(s).wire == old(s).wire,
        final(s).store == old(s).store,
        final(s).path == old(s).path,
        final(s).acked == old(s).acked,
        final(s).accepted_at == old(s).accepted_at,
        final(s).skipped == old(s).skipped,
{
    if let Some(seq) = served.last_examined {
        if seq + 1 > s.resume {
            s.resume = seq + 1;
        }
    }
    if served.chunks == 0 {
        return 0;
    }
    s.chunks = s.chunks + served.chunks;
    s.comp_bytes = s.comp_bytes + served.comp_bytes;
    s.undeclared = s.undeclared + served.chunks;
    if served.last_sent.is_some() {
        s.last_sent = served.last_sent;
    }
    served.chunks
}

/// The stream with a number.
pub open spec fn stream_index(live: Seq<Stream>, wire: u32, i: int) -> int
    decreases live.len() - i,
{
    if i >= live.len() || live[i].wire == wire {
        i
    } else {
        stream_index(live, wire, i + 1)
    }
}

/// Notes what the far end says that it holds, for the stream that it says it
/// of; tells whether it did.
pub fn note_ack(live: &mut Vec<Stream>, f: &Framed) -> (r: bool)
    ensures
        ({
            let k = stream_index(old(live)@, f.stream, 0);
            match f@.frame {
                FrameModel::Coverage { runs } => if k < old(live)@.len() {
                    &&& r
                    &&& final(live)@.len() == old(live)@.len()
                    &&& final(live)@[k].acked@ == runs
                    &&& final(live)@[k] == (Stream { acked: final(live)@[k].acked, ..old(live)@[k] })
                    &&& forall|i: int|
                        0 <= i < old(live)@.len() && i != k ==> final(live)@[i] == old(live)@[i]
                } else {
                    !r && final(live)@ == old(live)@
                },
                _ => !r && final(live)@ == old(live)@,
            }
        }),
{
    let runs = match &f.frame {
        Frame::Coverage { runs } => runs,
        _ => {
            return false;
        },
    };
    let mut i: usize = 0;
    while i < live.len()
        invariant
            i <= live@.len(),
            live@ == old(live)@,
            f@.frame == (FrameModel::Coverage { runs: runs@ }),
            stream_index(live@, f.stream, 0) == stream_index(live@, f.stream, i as int),
        decreases live@.len() - i,
    {
        if live[i].wire == f.stream {
            let held: Vec<Run> = vstd::slice::slice_to_vec(runs.as_slice());
            live[i].acked = held;
            return true;
        }
        i = i + 1;
    }
    false
}

/// The last chunk of everything that is held.
pub open spec fn last_held(runs: Seq<Run>) -> Option<u64>
    decreases runs.len(),
{
    if runs.len() == 0 {
        None
    } else {
        match last_held(runs.drop_last()) {
            Some(n) => Some(
                if runs.last().end > n {
                    runs.last().end
                } else {
                    n
                },
            ),
            None => Some(runs.last().end),
        }
    }
}

fn last_acked(runs: &Vec<Run>) -> (r: Option<u64>)
    ensures
        r == last_held(runs@),
{
    let mut r: Option<u64> = None;
    let mut i: usize = 0;
    while i < runs.len()
        invariant
            i <= runs@.len(),
            r == last_held(runs@.take(i as int)),
        decreases runs@.len() - i,
    {
        proof {
            assert(runs@.take(i + 1).drop_last() =~= runs@.take(i as int));
        }
        r = match r {
            Some(n) => Some(
                if runs[i].end > n {
                    runs[i].end
                } else {
                    n
                },
            ),
            None => Some(runs[i].end),
        };
        i = i + 1;
    }
    proof {
        assert(runs@.take(i as int) =~= runs@);
    }
    r
}

/// Whether a stream has a place to record: the far end holds all that was
/// sent, and the place says something new. An acknowledgement that is behind
/// what was sent is left alone, and so is a place that is as it was.
pub open spec fn place_due(s: Stream, held: Positions) -> bool {
    match (last_held(s.acked@), s.last_sent) {
        (Some(last), Some(sent)) => sent.seq == last && !(s.undeclared == 0 && (match place_in(
            held.at@,
            s.store@,
        ) {
            Some(p) => p.chunk == Some(last),
            None => false,
        })),
        _ => false,
    }
}

/// The place that a stream has to record.
pub open spec fn place_of(s: Stream) -> PlaceModel {
    PlaceModel {
        id: s.store@,
        path: s.path@,
        offset: s.last_sent->Some_0.offset,
        chunk: last_held(s.acked@),
        wl: s.last_sent->Some_0.last_write_ms,
        delivered: s.undeclared,
    }
}

/// Records a stream's place, where it has one to record; tells whether it did.
pub fn save_position(held: &mut Positions, s: &mut Stream) -> (r: bool)
    requires
        match place_in(old(held).at@, old(s).store@) {
            Some(p) => p.delivered + old(s).undeclared <= u64::MAX,
            None => true,
        },
    ensures
        r == place_due(*old(s), *old(held)),
        r ==> place_models(final(held).at@) == advanced_places(old(held).at@, place_of(*old(s))),
        r ==> final(held).consumer == old(held).consumer && final(held).notes == old(held).notes
            && final(held).note == old(held).note,
        r ==> *final(s) == (Stream { undeclared: 0, ..*old(s) }),
        !r ==> *final(held) == *old(held) && *final(s) == *old(s),
{
    let last: u64 = match last_acked(&s.acked) {
        Some(n) => n,
        None => {
            return false;
        },
    };
    let sent: LastSent = match s.last_sent {
        Some(sent) => sent,
        None => {
            return false;
        },
    };
    if sent.seq != last {
        return false;
    }
    if s.undeclared == 0 {
        if let Some(p) = held.get(s.store.as_str()) {
            if let Some(n) = p.chunk {
                if n == last {
                    return false;
                }
            }
        }
    }
    held.advance(
        s.store.as_str(),
        s.path.as_str(),
        sent.offset,
        Some(last),
        sent.last_write_ms,
        s.undeclared,
    );
    s.undeclared = 0;
    true
}

// ------------------------------------------------------------------- sender

/// Whether streams are in order: each store has one at most, each has a number
/// of its own that was given out, and no store that was refused has one.
pub open spec fn in_order(live: Seq<Stream>, refused: Seq<Seq<char>>, next_wire: u32) -> bool {
    &&& forall|i: int, j: int|
        0 <= i < j < live.len() ==> (#[trigger] live[i]).store@ != (#[trigger] live[j]).store@
            && live[i].wire != live[j].wire
    &&& forall|i: int| 0 <= i < live.len() ==> (#[trigger] live[i]).wire < next_wire
    &&& forall|i: int| 0 <= i < live.len() ==> !refused.contains((#[trigger] live[i]).store@)
}

/// A sender, between its passes: its streams, the stores that were refused, the
/// number that the next stream gets, and what it has to tell at the end.
pub struct Sender {
    pub live: Vec<Stream>,
    pub refused: Vec<String>,
    pub next_wire: u32,
    pub sent: Sent,
}

proof fn lemma_staying(live: Seq<Stream>, sources: Seq<Source>)
    ensures
        forall|i: int|
            0 <= i < staying(live, sources).len() ==> live.contains(
                #[trigger] staying(live, sources)[i],
            ),
    decreases live.len(),
{
    if live.len() > 0 {
        lemma_staying(live.drop_last(), sources);
        let front = staying(live.drop_last(), sources);
        assert forall|i: int| 0 <= i < staying(live, sources).len() implies live.contains(
            #[trigger] staying(live, sources)[i],
        ) by {
            if i < front.len() {
                assert(staying(live, sources)[i] == front[i]);
                let j = choose|j: int|
                    0 <= j < live.drop_last().len() && live.drop_last()[j] == front[i];
                assert(live[j] == front[i]);
            } else {
                assert(live[live.len() - 1] == staying(live, sources)[i]);
            }
        }
    }
}

proof fn lemma_staying_in_order(
    live: Seq<Stream>,
    sources: Seq<Source>,
    refused: Seq<Seq<char>>,
    next_wire: u32,
)
    requires
        in_order(live, refused, next_wire),
    ensures
        in_order(staying(live, sources), refused, next_wire),
    decreases live.len(),
{
    if live.len() > 0 {
        let front = live.drop_last();
        lemma_staying_in_order(front, sources, refused, next_wire);
        lemma_staying(front, sources);
        let kept = staying(front, sources);
        let now = staying(live, sources);
        assert forall|i: int, j: int| 0 <= i < j < now.len() implies (#[trigger] now[i]).store@ != (
        #[trigger] now[j]).store@ && now[i].wire != now[j].wire by {
            assert(now[i] == kept[i]);
            if j < kept.len() {
                assert(now[j] == kept[j]);
            } else {
                let a = choose|a: int| 0 <= a < front.len() && front[a] == kept[i];
                assert(live[a] == kept[i]);
                assert(live[a].store@ != live[live.len() - 1].store@);
            }
        }
        assert forall|i: int| 0 <= i < now.len() implies (#[trigger] now[i]).wire < next_wire
            && !refused.contains(now[i].store@) by {
            if i < kept.len() {
                assert(now[i] == kept[i]);
            } else {
                assert(now[i] == live[live.len() - 1]);
            }
        }
    }
}

impl Sender {
    /// Whether the streams are in order.
    pub open spec fn wf(&self) -> bool {
        in_order(self.live@, texts(self.refused@), self.next_wire)
    }

    /// A sender that sent nothing.
    pub fn new() -> (r: Sender)
        ensures
            r.wf(),
            r.live@.len() == 0,
            r.refused@.len() == 0,
            r.next_wire == 0,
            r.sent.streams@.len() == 0,
            r.sent.refused@.len() == 0,
            r.sent.unidentified@.len() == 0,
    {
        Sender { live: Vec::new(), refused: Vec::new(), next_wire: 0, sent: Sent::default() }
    }

    /// Begins a pass over the stores that are selected now: gives the numbers
    /// of the streams that are to be closed, because their store has left.
    pub fn begin_pass(&mut self, sources: &Vec<Source>) -> (closing_now: Vec<u32>)
        requires
            old(self).wf(),
        ensures
            final(self).wf(),
            final(self).live@ == staying(old(self).live@, sources@),
            closing_now@ == closing(old(self).live@, sources@),
            final(self).refused == old(self).refused,
            final(self).next_wire == old(self).next_wire,
            final(self).sent == old(self).sent,
    {
        proof {
            lemma_staying_in_order(
                self.live@,
                sources@,
                texts(self.refused@),
                self.next_wire,
            );
        }
        let mut live: Vec<Stream> = Vec::new();
        core::mem::swap(&mut live, &mut self.live);
        let (kept, closed) = close_missing(live, sources);
        self.live = kept;
        closed
    }

    /// Whether a store needs a stream opened.
    pub fn opens(&self, id: &str) -> (r: bool)
        ensures
            r == (!has_stream(self.live@, id@) && !texts(self.refused@).contains(id@)),
    {
        needs_stream(&self.live, &self.refused, id)
    }

    /// Notes that a store's stream was accepted, with what the far end holds
    /// already: the number that it was opened with is given out.
    pub fn accept(&mut self, source: &Source, runs: Vec<Run>)
        requires
            old(self).wf(),
            old(self).next_wire < u32::MAX,
            !has_stream(old(self).live@, source.id@),
            !texts(old(self).refused@).contains(source.id@),
            forall|i: int| 0 <= i < runs@.len() ==> (#[trigger] runs@[i]).end < u64::MAX,
        ensures
            final(self).wf(),
            final(self).live@.len() == old(self).live@.len() + 1,
            final(self).live@.drop_last() == old(self).live@,
            ({
                let s = final(self).live@.last();
                &&& s.wire == old(self).next_wire
                &&& s.store@ == source.id@
                &&& s.path@ == source.path@
                &&& s.resume == past_all(runs@)
                &&& s.accepted_at@ == runs@
                &&& s.skipped == past_all(runs@)
                &&& s.acked@.len() == 0 && s.last_sent is None && s.chunks == 0 && s.comp_bytes == 0
                    && s.undeclared == 0
            }),
            final(self).next_wire == old(self).next_wire + 1,
            final(self).refused == old(self).refused,
            final(self).sent == old(self).sent,
    {
        let ghost was = self.live@;
        let s = opened(self.next_wire, source, runs);
        self.live.push(s);
        self.next_wire = self.next_wire + 1;
        proof {
            let now = self.live@;
            assert(now.drop_last() =~= was);
            assert forall|i: int, j: int| 0 <= i < j < now.len() implies (#[trigger] now[i]).store@
                != (#[trigger] now[j]).store@ && now[i].wire != now[j].wire by {
                assert(now[i] == was[i]);
                if j < was.len() {
                    assert(now[j] == was[j]);
                }
            }
            assert forall|i: int| 0 <= i < now.len() implies (#[trigger] now[i]).wire
                < self.next_wire && !texts(self.refused@).contains(now[i].store@) by {
                if i < was.len() {
                    assert(now[i] == was[i]);
                }
            }
        }
    }

    /// Notes that a store was refused: it is told, and not tried again.
    pub fn refuse(&mut self, source: &Source, reason: String)
        requires
            old(self).wf(),
            !has_stream(old(self).live@, source.id@),
        ensures
            final(self).wf(),
            final(self).live == old(self).live,
            final(self).next_wire == old(self).next_wire,
            texts(final(self).refused@) == texts(old(self).refused@).push(source.id@),
            final(self).sent.streams == old(self).sent.streams,
            final(self).sent.unidentified == old(self).sent.unidentified,
            final(self).sent.refused@.len() == old(self).sent.refused@.len() + 1,
            final(self).sent.refused@.drop_last() == old(self).sent.refused@,
            final(self).sent.refused@.last().path@ == source.path@,
            final(self).sent.refused@.last().reason@ == reason@,
    {
        let ghost was = texts(self.refused@);
        let ghost told_before = self.sent.refused@;
        say(&mut self.refused, text(source.id.as_str()));
        self.sent.refused.push(Refused { path: text(source.path.as_str()), reason });
        proof {
            assert(self.sent.refused@.drop_last() =~= told_before);
            let now = texts(self.refused@);
            assert forall|i: int| 0 <= i < self.live@.len() implies !now.contains(
                (#[trigger] self.live@[i]).store@,
            ) by {
                let id = self.live@[i].store@;
                if now.contains(id) {
                    let j = choose|j: int| 0 <= j < now.len() && now[j] == id;
                    if j < was.len() {
                        assert(was[j] == id);
                        assert(was.contains(id));
                    }
                }
            }
        }
    }

    /// What was sent, once the connection is over.
    pub fn finish(self) -> (r: Sent)
        ensures
            r.refused == self.sent.refused,
            r.unidentified == self.sent.unidentified,
            r.streams@ == self.sent.streams@ + sent_streams(self.live@),
    {
        let ghost live = self.live@;
        let ghost before = self.sent.streams@;
        let mut sent = self.sent;
        proof {
            assert(live.take(0) =~= Seq::empty());
            assert(sent.streams@ =~= before + sent_streams(live.take(0)));
        }
        for s in it: self.live
            invariant
                it.seq() == live,
                sent.refused == self.sent.refused,
                sent.unidentified == self.sent.unidentified,
                sent.streams@ == before + sent_streams(live.take(it.index() as int)),
        {
            proof {
                let k = it.index() as int;
                assert(live.take(k + 1).drop_last() =~= live.take(k));
                assert(live.take(k + 1).last() == s);
            }
            let ghost so_far = sent.streams@;
            sent.streams.push(stream_sent(s));
            proof {
                let k = it.index() as int;
                assert(sent.streams@ =~= before + sent_streams(live.take(k + 1)));
            }
        }
        proof {
            assert(live.take(live.len() as int) =~= live);
        }
        sent
    }
}

/// What a list of streams sent.
pub open spec fn sent_streams(live: Seq<Stream>) -> Seq<StreamSent>
    decreases live.len(),
{
    if live.len() == 0 {
        Seq::empty()
    } else {
        let s = live.last();
        sent_streams(live.drop_last()).push(
            StreamSent {
                store: s.store,
                path: s.path,
                chunks: s.chunks,
                comp_bytes: s.comp_bytes,
                accepted_at: s.accepted_at,
                acked: s.acked,
                skipped_already_held: s.skipped,
            },
        )
    }
}

/// What follows a pass.
#[derive(Debug, Clone, Copy, PartialEq, Eq, Structural)]
pub enum AfterPass {
    Again,
    /// Nothing was shipped: the sender waits before it looks again.
    Sleep,
    /// Nothing is left to ship, and the sender does not follow.
    End,
}

/// What follows a pass that shipped so many chunks.
pub fn after_pass(follow: bool, shipped: u64) -> (r: AfterPass)
    ensures
        r == (if shipped > 0 {
            AfterPass::Again
        } else if follow {
            AfterPass::Sleep
        } else {
            AfterPass::End
        }),
        r is Again <==> shipped > 0,
        r is End <==> shipped == 0 && !follow,
{
    if shipped > 0 {
        AfterPass::Again
    } else if follow {
        AfterPass::Sleep
    } else {
        AfterPass::End
    }
}

/// Whether there is anything to connect for: a sender that does not follow and
/// has no store to send does not.
pub fn connects(follow: bool, sources: usize) -> (r: bool)
    ensures
        r == (follow || sources > 0),
{
    follow || sources > 0
}

/// What a stream sent.
pub fn stream_sent(s: Stream) -> (r: StreamSent)
    ensures
        r == (StreamSent {
            store: s.store,
            path: s.path,
            chunks: s.chunks,
            comp_bytes: s.comp_bytes,
            accepted_at: s.accepted_at,
            acked: s.acked,
            skipped_already_held: s.skipped,
        }),
{
    StreamSent {
        store: s.store,
        path: s.path,
        chunks: s.chunks,
        comp_bytes: s.comp_bytes,
        accepted_at: s.accepted_at,
        acked: s.acked,
        skipped_already_held: s.skipped,
    }
}

// --------------------------------------------------------------------- laws

/// A stream that stays is of a store that is still selected, and every other
/// stream is closed: none is dropped without being closed.
pub proof fn a_stream_stays_or_is_closed(live: Seq<Stream>, sources: Seq<Source>)
    ensures
        staying(live, sources).len() + closing(live, sources).len() == live.len(),
        forall|i: int|
            0 <= i < staying(live, sources).len() ==> is_source(
                sources,
                (#[trigger] staying(live, sources)[i]).store@,
            ),
        forall|i: int|
            0 <= i < live.len() ==> staying(live, sources).contains(#[trigger] live[i])
                || closing(live, sources).contains(live[i].wire),
    decreases live.len(),
{
    if live.len() > 0 {
        let front = live.drop_last();
        a_stream_stays_or_is_closed(front, sources);
        let kept = staying(front, sources);
        let closed = closing(front, sources);
        assert forall|i: int| 0 <= i < staying(live, sources).len() implies is_source(
            sources,
            (#[trigger] staying(live, sources)[i]).store@,
        ) by {
            if i < kept.len() {
                assert(staying(live, sources)[i] == kept[i]);
            }
        }
        assert forall|i: int| 0 <= i < live.len() implies staying(live, sources).contains(
            #[trigger] live[i],
        ) || closing(live, sources).contains(live[i].wire) by {
            if i < front.len() {
                assert(front[i] == live[i]);
                if kept.contains(live[i]) {
                    let j = choose|j: int| 0 <= j < kept.len() && kept[j] == live[i];
                    assert(staying(live, sources)[j] == live[i]);
                } else {
                    let j = choose|j: int| 0 <= j < closed.len() && closed[j] == live[i].wire;
                    assert(closing(live, sources)[j] == live[i].wire);
                }
            } else if is_source(sources, live[i].store@) {
                assert(staying(live, sources)[kept.len() as int] == live[i]);
            } else {
                assert(closing(live, sources)[closed.len() as int] == live[i].wire);
            }
        }
    }
}

/// A stream resumes past everything that the far end holds, so that nothing it
/// holds is sent again.
pub proof fn a_stream_resumes_past_what_is_held(runs: Seq<Run>, i: int)
    requires
        0 <= i < runs.len(),
    ensures
        runs[i].end < past_all(runs),
    decreases runs.len(),
{
    if i < runs.len() - 1 {
        a_stream_resumes_past_what_is_held(runs.drop_last(), i);
    }
}

/// A stream resumes at the least number that is past everything the far end
/// holds: at zero where it holds nothing, else right behind the end of one of
/// its runs. So nothing that it holds is sent again, and nothing that it lacks
/// behind its last run is left out.
pub proof fn the_resume_point_is_the_first_that_is_not_held(runs: Seq<Run>)
    ensures
        forall|i: int| 0 <= i < runs.len() ==> (#[trigger] runs[i]).end < past_all(runs),
        runs.len() == 0 ==> past_all(runs) == 0,
        runs.len() > 0 ==> exists|i: int|
            0 <= i < runs.len() && past_all(runs) == (#[trigger] runs[i]).end + 1,
    decreases runs.len(),
{
    if runs.len() > 0 {
        let front = runs.drop_last();
        the_resume_point_is_the_first_that_is_not_held(front);
        assert forall|i: int| 0 <= i < runs.len() implies (#[trigger] runs[i]).end < past_all(
            runs,
        ) by {
            if i < front.len() {
                assert(front[i] == runs[i]);
            }
        }
        if past_all(runs) == runs.last().end + 1 {
            assert(runs[runs.len() - 1].end + 1 == past_all(runs));
        } else {
            let i = choose|i: int|
                0 <= i < front.len() && past_all(front) == (#[trigger] front[i]).end + 1;
            assert(runs[i] == front[i]);
        }
    }
}

/// A turn never takes a stream back, and what it looked at is behind it.
pub proof fn a_stream_never_goes_back(resume: u64, last_examined: Option<u64>)
    ensures
        resumes(resume, last_examined) >= resume,
        last_examined is Some ==> resumes(resume, last_examined) > last_examined->Some_0,
{
}

/// A place is recorded only for what the far end said that it holds.
pub proof fn a_place_is_what_the_far_end_holds(s: Stream, held: Positions)
    requires
        place_due(s, held),
    ensures
        place_of(s).chunk is Some,
        exists|i: int|
            0 <= i < s.acked@.len() && (#[trigger] s.acked@[i]).end == place_of(s).chunk->Some_0,
        s.last_sent->Some_0.seq == place_of(s).chunk->Some_0,
{
    lemma_last_held(s.acked@);
}

proof fn lemma_last_held(runs: Seq<Run>)
    ensures
        match last_held(runs) {
            Some(n) => exists|i: int| 0 <= i < runs.len() && (#[trigger] runs[i]).end == n,
            None => runs.len() == 0,
        },
    decreases runs.len(),
{
    if runs.len() > 0 {
        lemma_last_held(runs.drop_last());
        let n = last_held(runs)->Some_0;
        if n == runs.last().end {
            assert(runs[runs.len() - 1].end == n);
        } else {
            let i = choose|i: int|
                0 <= i < runs.drop_last().len() && (#[trigger] runs.drop_last()[i]).end == n;
            assert(runs[i].end == n);
        }
    }
}

} // verus!
