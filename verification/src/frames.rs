//! The replication transport: what a connection's frames come to at each end.
//!
//! One connection carries a selection: a stream per store that the sender's
//! predicate matches, opened as the store appears and closed when it leaves.
//! The receiver answers an opening with what it holds already, so that the
//! sender resumes from the receiver's own position instead of guessing, or
//! with a conflict that says why not. Both are per stream: one refused store
//! leaves the others shipping.
//!
//! A destination is found by the store's identity, which travels. Nothing here
//! routes by a label, and nothing derives a path from what a sender wrote.

use crate::bark::{manifest_view, opt_str, opt_string, ManifestModel};
use crate::frame::{
    encode, encode_hello, encoded, encoded_hello, uuid_bytes, Frame, FrameModel, Framed,
    FramedModel, Hello, Run, VERSION,
};
use crate::json::{text_in, Fields};
use crate::paths::{join as join_path, joined_path};
use crate::registration::{nothing_said, say};
use crate::text::{decimal, join, joined, number_text, text, texts};
use crate::uuid::uuid_of;
use vstd::prelude::*;
use vstd::string::StringExecFns;

verus! {

/// Where per-stream flow control will attach. Nothing waits on it yet: a
/// sender ships what it has.
pub const WINDOW_BYTES: u64 = 8_388_608;

/// How many chunks one store may hand to the wire before its sender reads the
/// acknowledgements they produced. A bound is needed for more than pacing: the
/// receiver acknowledges every chunk, and a sender that never reads would leave
/// both ends waiting for each other.
pub const CHUNKS_PER_TURN: u64 = 256;

/// How a receiver listens, and what it makes of a store that it never saw.
#[derive(Debug, Clone, PartialEq, Eq)]
pub struct IntakeOpts {
    pub listen: String,
    /// Exit cleanly when this binary is replaced on disk.
    pub exit_on_upgrade: bool,
    pub into_dir: String,
    pub auto_create: bool,
    pub index: bool,
    pub wal: bool,
}

/// What either end says first.
pub fn hello_bytes() -> (r: Vec<u8>)
    ensures
        r@ == encoded_hello((Hello { version: VERSION, incompat: 0 })),
{
    let h = encode_hello(Hello { version: VERSION, incompat: 0 });
    let r: Vec<u8> = vstd::slice::slice_to_vec(h.as_slice());
    r
}

/// One frame of a stream, on the wire.
pub fn frame_bytes(stream: u32, frame: Frame) -> (r: Vec<u8>)
    ensures
        r@ == encoded((FramedModel { stream, frame: frame@ })),
{
    let mut out: Vec<u8> = Vec::new();
    let f = Framed { stream, frame };
    encode(&f, &mut out);
    proof {
        assert(out@ =~= encoded(f@));
    }
    out
}

// ----------------------------------------------------------------- receiver

/// What a frame is to a receiver.
#[derive(Debug, Clone, Copy, PartialEq, Eq, Structural)]
pub enum Incoming {
    Open,
    Close,
    Chunk,
    Other,
}

/// What a frame is to a receiver.
pub fn incoming(frame: &Frame) -> (r: Incoming)
    ensures
        r == (match frame@ {
            FrameModel::StreamOpen { .. } => Incoming::Open,
            FrameModel::Chunk { .. } => Incoming::Chunk,
            _ => Incoming::Other,
        }),
        r is Open <==> frame@ is StreamOpen,
        r is Chunk <==> frame@ is Chunk,
        !(r is Close),
{
    match frame {
        Frame::StreamOpen { .. } => Incoming::Open,
        Frame::Chunk { .. } => Incoming::Chunk,
        _ => Incoming::Other,
    }
}

/// What a receiver does with a frame.
#[derive(Debug, Clone, Copy, PartialEq, Eq, Structural)]
pub enum Step {
    /// The stream is to be opened, and accepted or refused.
    Open,
    /// The stream's session is finished.
    Finish,
    /// The frame goes to the stream's session, and what the session holds then
    /// is told, where the frame was a chunk.
    Apply { acknowledge: bool },
    /// The frame is of a stream that is not open.
    Ignore,
}

/// A stream that was opened twice.
#[derive(Debug, Clone, Copy, PartialEq, Eq, Structural)]
pub struct OpenedTwice {
    pub stream: u32,
}

impl OpenedTwice {
    /// What the error says.
    pub fn message(&self, peer: &str) -> (r: String)
        ensures
            r@ == peer@ + ": stream "@ + decimal(self.stream as nat)
                + " was opened twice without being closed"@,
    {
        text(peer).concat(": stream ").concat(number_text(self.stream as u64).as_str()).concat(
            " was opened twice without being closed",
        )
    }
}

/// The streams that are open on a connection, in the order they were opened.
pub struct Streams {
    open: Vec<u32>,
}

impl View for Streams {
    type V = Seq<u32>;

    closed spec fn view(&self) -> Seq<u32> {
        self.open@
    }
}

/// What a frame comes to, where streams are open.
pub open spec fn step_of(open: Seq<u32>, stream: u32, what: Incoming) -> Result<Step, OpenedTwice> {
    match what {
        Incoming::Open => if open.contains(stream) {
            Err(OpenedTwice { stream })
        } else {
            Ok(Step::Open)
        },
        Incoming::Close => if open.contains(stream) {
            Ok(Step::Finish)
        } else {
            Ok(Step::Ignore)
        },
        Incoming::Chunk => if open.contains(stream) {
            Ok(Step::Apply { acknowledge: true })
        } else {
            Ok(Step::Ignore)
        },
        Incoming::Other => if open.contains(stream) {
            Ok(Step::Apply { acknowledge: false })
        } else {
            Ok(Step::Ignore)
        },
    }
}

/// The streams that are open after a frame: a closed one is open no longer.
pub open spec fn open_after(open: Seq<u32>, stream: u32, what: Incoming) -> Seq<u32> {
    if what == Incoming::Close && open.contains(stream) {
        open.remove(open.index_of(stream))
    } else {
        open
    }
}

impl Streams {
    /// Whether no stream is open twice.
    pub open spec fn wf(&self) -> bool {
        self@.no_duplicates()
    }

    /// No stream is open.
    pub fn new() -> (r: Streams)
        ensures
            r@ == Seq::<u32>::empty(),
            r.wf(),
    {
        Streams { open: Vec::new() }
    }

    fn find(&self, stream: u32) -> (k: usize)
        ensures
            k <= self@.len(),
            k < self@.len() ==> self@[k as int] == stream,
            self@.contains(stream) <==> k < self@.len(),
    {
        let mut k: usize = 0;
        while k < self.open.len()
            invariant
                k <= self@.len(),
                self@ == self.open@,
                forall|j: int| 0 <= j < k ==> self@[j] != stream,
            decreases self@.len() - k,
        {
            if self.open[k] == stream {
                assert(self@[k as int] == stream);
                return k;
            }
            k = k + 1;
        }
        k
    }

    /// What a frame comes to. A closed stream is open no longer.
    pub fn step(&mut self, stream: u32, what: Incoming) -> (r: Result<Step, OpenedTwice>)
        requires
            old(self).wf(),
        ensures
            final(self).wf(),
            r == step_of(old(self)@, stream, what),
            final(self)@ == open_after(old(self)@, stream, what),
    {
        let ghost was = self@;
        let k: usize = self.find(stream);
        let known = k < self.open.len();
        match what {
            Incoming::Open => if known {
                Err(OpenedTwice { stream })
            } else {
                Ok(Step::Open)
            },
            Incoming::Close => {
                if !known {
                    return Ok(Step::Ignore);
                }
                self.open.remove(k);
                proof {
                    let now = self@;
                    assert(now == was.remove(k as int));
                    assert forall|i: int, j: int|
                        0 <= i < now.len() && 0 <= j < now.len() && i != j implies now[i]
                        != now[j] by {
                        let a = if i < k { i } else { i + 1 };
                        let b = if j < k { j } else { j + 1 };
                        assert(now[i] == was[a] && now[j] == was[b]);
                    }
                    assert(was[k as int] == stream && was[was.index_of(stream)] == stream);
                }
                Ok(Step::Finish)
            },
            Incoming::Chunk => if known {
                Ok(Step::Apply { acknowledge: true })
            } else {
                Ok(Step::Ignore)
            },
            Incoming::Other => if known {
                Ok(Step::Apply { acknowledge: false })
            } else {
                Ok(Step::Ignore)
            },
        }
    }

    /// Notes that a stream was accepted.
    pub fn accepted(&mut self, stream: u32)
        requires
            old(self).wf(),
            !old(self)@.contains(stream),
        ensures
            final(self).wf(),
            final(self)@ == old(self)@.push(stream),
    {
        self.open.push(stream);
    }

    /// The streams that are still open at the end of a connection: what each
    /// of them holds is told, and its session finished.
    pub fn end(self) -> (r: Vec<u32>)
        ensures
            r@ == self@,
    {
        self.open
    }
}

// -------------------------------------------------------------- destination

/// Why a stream is refused, and who holds its identity, where that is known.
#[derive(Debug, Clone, PartialEq, Eq)]
pub struct Refusal {
    pub reason: String,
    pub holder: [u8; 16],
}

/// What a refusal is.
pub struct RefusalModel {
    pub reason: Seq<char>,
    pub holder: Seq<u8>,
}

impl View for Refusal {
    type V = RefusalModel;

    open spec fn view(&self) -> RefusalModel {
        RefusalModel { reason: self.reason@, holder: self.holder@ }
    }
}

/// An identity that is nobody's.
pub open spec fn nobody() -> Seq<u8> {
    Seq::new(16, |i: int| 0u8)
}

fn no_one() -> (r: [u8; 16])
    ensures
        r@ == nobody(),
{
    let r: [u8; 16] = [0, 0, 0, 0, 0, 0, 0, 0, 0, 0, 0, 0, 0, 0, 0, 0];
    proof {
        assert(r@ =~= nobody());
    }
    r
}

/// The identity under a key of a manifest, as bytes.
pub open spec fn identity_under(m: Option<ManifestModel>, key: Seq<char>) -> Seq<u8> {
    match m {
        Some(m) => match text_in(m, key) {
            Some(s) => match uuid_of(s) {
                Some(b) => b,
                None => nobody(),
            },
            None => nobody(),
        },
        None => nobody(),
    }
}

fn identity_at(m: Option<&Fields>, key: &str) -> (r: [u8; 16])
    ensures
        r@ == identity_under(manifest_view(m), key@),
{
    match m {
        Some(m) => match m.text_at(key) {
            Some(s) => match uuid_bytes(s.as_str()) {
                Some(b) => b,
                None => no_one(),
            },
            None => no_one(),
        },
        None => no_one(),
    }
}

/// The identity by which a receiver knows a store that it accepted.
pub fn registration_id(manifest: Option<&Fields>) -> (r: [u8; 16])
    ensures
        r@ == identity_under(manifest_view(manifest), "id"@),
{
    identity_at(manifest, "id")
}

/// Why a stream could not be opened, with the origin that holds its
/// destination.
pub fn refused(reason: &str, manifest: Option<&Fields>) -> (r: Refusal)
    ensures
        r@ == (RefusalModel {
            reason: reason@,
            holder: identity_under(manifest_view(manifest), "origin_id"@),
        }),
{
    Refusal { reason: text(reason), holder: identity_at(manifest, "origin_id") }
}

/// The lines that name paths.
pub open spec fn path_lines(paths: Seq<Seq<char>>) -> Seq<Seq<char>> {
    Seq::new(paths.len(), |i: int| "  "@ + paths[i])
}

/// What is said where more than one store could be the destination.
pub open spec fn ambiguous(
    into_dir: Seq<char>,
    key: Seq<char>,
    id: Seq<char>,
    found: Seq<Seq<char>>,
) -> Seq<char> {
    decimal(found.len()) + " stores under "@ + into_dir + " declare "@ + key + "="@ + id
        + ", so there is no one store to receive into:\n"@ + joined(path_lines(found), "\n"@)
}

/// The destination of a store: the one that declares it as its origin, else
/// the one that has its identity. An error where there are several.
pub open spec fn destination(
    into_dir: Seq<char>,
    id: Seq<char>,
    by_origin: Seq<Seq<char>>,
    by_id: Seq<Seq<char>>,
) -> Result<Option<Seq<char>>, Seq<char>> {
    if by_origin.len() == 1 {
        Ok(Some(by_origin[0]))
    } else if by_origin.len() > 1 {
        Err(ambiguous(into_dir, "origin_id"@, id, by_origin))
    } else if by_id.len() == 1 {
        Ok(Some(by_id[0]))
    } else if by_id.len() > 1 {
        Err(ambiguous(into_dir, "id"@, id, by_id))
    } else {
        Ok(None)
    }
}

fn ambiguity(into_dir: &str, key: &str, id: &str, found: &Vec<String>) -> (r: String)
    ensures
        r@ == ambiguous(into_dir@, key@, id@, texts(found@)),
{
    let ghost all = texts(found@);
    let n: usize = found.len();
    let mut lines = nothing_said();
    let mut i: usize = 0;
    while i < found.len()
        invariant
            i <= found@.len(),
            all == texts(found@),
            texts(lines@) == path_lines(all).take(i as int),
        decreases found@.len() - i,
    {
        let line = text("  ").concat(found[i].as_str());
        say(&mut lines, line);
        i = i + 1;
        proof {
            assert(path_lines(all)[i - 1] == line@);
            assert(texts(lines@) =~= path_lines(all).take(i as int));
        }
    }
    proof {
        assert(texts(lines@) =~= path_lines(all));
    }
    number_text(n as u64).concat(" stores under ").concat(into_dir).concat(" declare ").concat(
        key,
    ).concat("=").concat(id).concat(", so there is no one store to receive into:\n").concat(
        join(&lines, "\n").as_str(),
    )
}

/// The destination of a store, among those that declare it as their origin and
/// those that have its identity.
pub fn find_destination(
    into_dir: &str,
    id: &str,
    by_origin: &Vec<String>,
    by_id: &Vec<String>,
) -> (r: Result<Option<String>, String>)
    ensures
        match r {
            Ok(d) => destination(into_dir@, id@, texts(by_origin@), texts(by_id@)) == Ok::<
                Option<Seq<char>>,
                Seq<char>,
            >(opt_string(d)),
            Err(e) => destination(into_dir@, id@, texts(by_origin@), texts(by_id@)) == Err::<
                Option<Seq<char>>,
                Seq<char>,
            >(e@),
        },
{
    proof {
        assert(texts(by_origin@).len() == by_origin@.len());
        assert(texts(by_id@).len() == by_id@.len());
    }
    if by_origin.len() == 1 {
        Ok(Some(text(by_origin[0].as_str())))
    } else if by_origin.len() > 1 {
        Err(ambiguity(into_dir, "origin_id", id, by_origin))
    } else if by_id.len() == 1 {
        Ok(Some(text(by_id[0].as_str())))
    } else if by_id.len() > 1 {
        Err(ambiguity(into_dir, "id", id, by_id))
    } else {
        Ok(None)
    }
}

/// Where a stream is received, or why it is not: a store that was never seen
/// gets a place named after its identity where stores may be made.
pub open spec fn landing(
    opts: IntakeOpts,
    id: Option<Seq<char>>,
    by_origin: Seq<Seq<char>>,
    by_id: Seq<Seq<char>>,
) -> Result<Seq<char>, Seq<char>> {
    match id {
        None => Err(
            "the stream carries no store identity, and a replica is keyed by one — give the source an identity with `timberfs identity <store> --mint`"@,
        ),
        Some(id) => match destination(opts.into_dir@, id, by_origin, by_id) {
            Err(e) => Err(e),
            Ok(Some(d)) => Ok(d),
            Ok(None) => if opts.auto_create {
                Ok(join_path(join_path(opts.into_dir@, id), id))
            } else {
                Err(
                    "store "@ + id
                        + " has not been received here before — run the intake with --auto-create, or declare a destination for it with `timberfs create <store> --set origin_id="@
                        + id + "`"@,
                )
            },
        },
    }
}

/// Where a stream is received, or why it is not. A refusal here names nobody.
pub fn open_stream(
    opts: &IntakeOpts,
    id: Option<&str>,
    by_origin: &Vec<String>,
    by_id: &Vec<String>,
) -> (r: Result<String, Refusal>)
    ensures
        match r {
            Ok(d) => landing(*opts, opt_str(id), texts(by_origin@), texts(by_id@)) == Ok::<
                Seq<char>,
                Seq<char>,
            >(d@),
            Err(e) => landing(*opts, opt_str(id), texts(by_origin@), texts(by_id@)) == Err::<
                Seq<char>,
                Seq<char>,
            >(e.reason@) && e.holder@ == nobody(),
        },
{
    let id = match id {
        Some(id) => id,
        None => {
            return Err(
                Refusal {
                    reason: text(
                        "the stream carries no store identity, and a replica is keyed by one — give the source an identity with `timberfs identity <store> --mint`",
                    ),
                    holder: no_one(),
                },
            );
        },
    };
    match find_destination(opts.into_dir.as_str(), id, by_origin, by_id) {
        Ok(Some(d)) => Ok(d),
        Ok(None) => {
            if opts.auto_create {
                let dir = joined_path(opts.into_dir.as_str(), id);
                Ok(joined_path(dir.as_str(), id))
            } else {
                Err(
                    Refusal {
                        reason: text("store ").concat(id).concat(
                            " has not been received here before — run the intake with --auto-create, or declare a destination for it with `timberfs create <store> --set origin_id=",
                        ).concat(id).concat("`"),
                        holder: no_one(),
                    },
                )
            }
        },
        Err(reason) => Err(Refusal { reason, holder: no_one() }),
    }
}

/// The answer to an opening that was accepted.
pub fn accepted_frame(manifest: Option<&Fields>, runs: Vec<Run>) -> (r: Frame)
    ensures
        r@ == (FrameModel::Accepted {
            registration_id: identity_under(manifest_view(manifest), "id"@),
            runs: runs@,
        }),
{
    Frame::Accepted { registration_id: registration_id(manifest), runs }
}

/// The answer to an opening that was refused.
pub fn conflict_frame(refusal: Refusal) -> (r: Frame)
    ensures
        r@ == (FrameModel::Conflict {
            holder_origin: refusal.holder@,
            runs: Seq::empty(),
            reason: refusal.reason@,
        }),
{
    let runs: Vec<Run> = Vec::new();
    proof {
        assert(runs@ =~= Seq::<Run>::empty());
    }
    Frame::Conflict { holder_origin: refusal.holder, runs, reason: refusal.reason }
}

// --------------------------------------------------------------------- laws

/// What happens on a connection: a stream is accepted, or a frame comes.
pub enum Happening {
    Accepted(u32),
    Frame(u32, Incoming),
}

/// The streams that are open after all that happened.
pub open spec fn open_now(h: Seq<Happening>) -> Seq<u32>
    decreases h.len(),
{
    if h.len() == 0 {
        Seq::empty()
    } else {
        match h.last() {
            Happening::Accepted(stream) => open_now(h.drop_last()).push(stream),
            Happening::Frame(stream, what) => open_after(open_now(h.drop_last()), stream, what),
        }
    }
}

/// The streams whose session was finished because they were closed.
pub open spec fn closed_by_now(h: Seq<Happening>) -> Seq<u32>
    decreases h.len(),
{
    if h.len() == 0 {
        Seq::empty()
    } else {
        let front = closed_by_now(h.drop_last());
        match h.last() {
            Happening::Frame(stream, what) => if step_of(open_now(h.drop_last()), stream, what)
                == Ok::<Step, OpenedTwice>(Step::Finish) {
                front.push(stream)
            } else {
                front
            },
            _ => front,
        }
    }
}

/// The streams that were accepted.
pub open spec fn accepted_by_now(h: Seq<Happening>) -> Seq<u32>
    decreases h.len(),
{
    if h.len() == 0 {
        Seq::empty()
    } else {
        match h.last() {
            Happening::Accepted(stream) => accepted_by_now(h.drop_last()).push(stream),
            _ => accepted_by_now(h.drop_last()),
        }
    }
}

/// Every stream that was accepted is finished exactly once: when it is closed,
/// or at the end of the connection, where it is still open.
pub proof fn every_accepted_stream_is_finished_once(h: Seq<Happening>)
    ensures
        closed_by_now(h).to_multiset().add(open_now(h).to_multiset()) =~= accepted_by_now(
            h,
        ).to_multiset(),
    decreases h.len(),
{
    broadcast use vstd::seq_lib::group_to_multiset_ensures;

    if h.len() > 0 {
        every_accepted_stream_is_finished_once(h.drop_last());
        let open = open_now(h.drop_last());
        if let Happening::Frame(stream, what) = h.last() {
            if what == Incoming::Close && open.contains(stream) {
                let k = open.index_of(stream);
                assert(0 <= k < open.len() && open[k] == stream);
                assert(open.to_multiset().count(stream) > 0);
                assert(open.remove(k).to_multiset() =~= open.to_multiset().remove(stream));
            }
        }
    }
}

/// A frame of a stream that is not open changes nothing and is answered by
/// nothing; only a chunk of an open stream is acknowledged.
pub proof fn only_chunks_of_open_streams_are_acknowledged(
    open: Seq<u32>,
    stream: u32,
    what: Incoming,
)
    ensures
        !open.contains(stream) && what != Incoming::Open ==> step_of(open, stream, what) == Ok::<
            Step,
            OpenedTwice,
        >(Step::Ignore) && open_after(open, stream, what) == open,
        step_of(open, stream, what) == Ok::<Step, OpenedTwice>(Step::Apply { acknowledge: true })
            <==> open.contains(stream) && what == Incoming::Chunk,
{
}

} // verus!
