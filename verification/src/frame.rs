//! The native replication wire: the codec, and nothing else.
//!
//! One hello per connection, then typed frames each carrying a stream id and
//! their own payload length. That length is the load-bearing part: a reader
//! can skip a frame it does not understand, which is what lets new frame
//! types and new sidecar kinds be additive rather than a version bump.
//! `incompat` in the hello is the other half: it guards changes to how a
//! chunk must be interpreted, where skipping is not an option.
//!
//! Everything is little-endian, as in `format`.

use crate::bytes::{get_u32, get_u64, le, le_at};
use crate::text::{decimal, hex_number, hex_number_text, number_text, text, utf8_text};
use crate::uuid::{parse_uuid, uuid_chars, uuid_of, uuid_spelled};
use vstd::prelude::*;
use vstd::slice::{slice_subrange, slice_to_vec};
use vstd::string::StringExecFns;
use vstd::utf8::{decode_utf8, encode_utf8, valid_utf8};

verus! {

pub use crate::bytes::{put_u32, put_u64};

/// `TIMBSTR1`.
pub const MAGIC: [u8; 8] = [0x54, 0x49, 0x4d, 0x42, 0x53, 0x54, 0x52, 0x31];

pub const VERSION: u32 = 1;

/// Magic, version and incompat flags.
pub const HELLO_LEN: usize = 16;

/// Stream id, kind and payload length.
pub const FRAME_HEADER_LEN: usize = 12;

/// A sidecar table entry: an 8-byte kind tag and a u32 length.
pub const SIDECAR_ENTRY_LEN: usize = 12;

/// Largest payload this codec will accept. A length field arrives from the
/// network, so it is bounded before anything is allocated on the strength of
/// it. Generous next to a 256 KiB chunk plus its sidecars.
pub const MAX_PAYLOAD: u32 = 0x400_0000;

/// `last_seq` when the sender does not know where the stream ends;
/// deliberately not 0, which is a legitimate last seq for a stream carrying
/// only chunk 0.
pub const OPEN_ENDED: u64 = u64::MAX;

#[derive(Debug, Clone, Copy, PartialEq, Eq)]
pub struct Hello {
    pub version: u32,
    /// A bit set here that the reader does not know means stop: something
    /// about the chunks themselves changed, so skipping is not safe.
    pub incompat: u32,
}

/// What a `StreamOpen` asks for. `Coverage` answers with a run list and no
/// chunk frames, `Index` sends chunk frames carrying metadata and their true
/// `comp_len` but no bytes, `Frames` sends the bytes too.
#[derive(Debug, Clone, Copy, PartialEq, Eq, Structural)]
pub enum Mode {
    Coverage,
    Index,
    Frames,
}

/// One run of a tape a peer holds, both ends inclusive. A contiguous store is
/// one run; the empty list means "nothing".
#[derive(Debug, Clone, Copy, PartialEq, Eq, Structural)]
pub struct Run {
    pub start: u64,
    pub end: u64,
}

/// Data riding alongside a chunk (or alongside a stream, in the opening
/// frame): a `.grain` page, a digest, a future zone-map. The tag names the
/// kind and its parameters, so a reader with different parameters simply does
/// not recognise the kind and drops it.
///
/// An unknown kind is dropped by the caller; the codec round-trips it.
#[derive(Debug, Clone, PartialEq, Eq)]
pub struct Sidecar {
    pub kind: [u8; 8],
    pub bytes: Vec<u8>,
}

/// What a sidecar is.
pub struct SidecarModel {
    pub kind: Seq<u8>,
    pub bytes: Seq<u8>,
}

#[derive(Debug, Clone, PartialEq, Eq)]
pub enum Frame {
    /// Opens a logical stream on this connection and says what it is.
    /// `origin_id` is the travelling half of the address, copied verbatim;
    /// `sender_id` is the sender's own store, which becomes the destination's
    /// `derived_from`. Neither is ever the destination's own identity.
    StreamOpen {
        origin_id: [u8; 16],
        sender_id: [u8; 16],
        first_seq: u64,
        /// `OPEN_ENDED` for a live stream with no known end.
        last_seq: u64,
        mode: Mode,
        /// The store's labels as JSON, not the whole manifest: the receiver
        /// keeps its own retention and index policy.
        provenance: Vec<u8>,
        sidecars: Vec<Sidecar>,
    },
    /// One chunk. `comp_len` is the chunk's true compressed size even when
    /// the bytes are absent. Offsets never travel: the receiver derives its
    /// own by accumulation.
    Chunk {
        seq: u64,
        uncomp_len: u64,
        comp_len: u64,
        /// `None` in `Index` mode: metadata without the payload.
        comp: Option<Vec<u8>>,
        first_write_ms: u64,
        last_write_ms: u64,
        sidecars: Vec<Sidecar>,
    },
    /// What a peer holds. Also serves as the ack.
    Coverage { runs: Vec<Run> },
    /// The server's side of a registration: a handle it controls, plus what
    /// it already holds for this origin.
    Accepted { registration_id: [u8; 16], runs: Vec<Run> },
    /// Refused: something else already holds this identity or name.
    Conflict { holder_origin: [u8; 16], runs: Vec<Run>, reason: String },
    /// A kind this build does not know, kept whole.
    Unknown { kind: u32, payload: Vec<u8> },
}

/// What a frame is.
pub enum FrameModel {
    StreamOpen {
        origin_id: Seq<u8>,
        sender_id: Seq<u8>,
        first_seq: u64,
        last_seq: u64,
        mode: Mode,
        provenance: Seq<u8>,
        sidecars: Seq<SidecarModel>,
    },
    Chunk {
        seq: u64,
        uncomp_len: u64,
        comp_len: u64,
        comp: Option<Seq<u8>>,
        first_write_ms: u64,
        last_write_ms: u64,
        sidecars: Seq<SidecarModel>,
    },
    Coverage { runs: Seq<Run> },
    Accepted { registration_id: Seq<u8>, runs: Seq<Run> },
    Conflict { holder_origin: Seq<u8>, runs: Seq<Run>, reason: Seq<char> },
    Unknown { kind: u32, payload: Seq<u8> },
}

/// A frame and the stream it belongs to. Stream 0 is the only stream on a
/// connection that never multiplexes, so a 1:1 transport pays 4 bytes and no
/// design.
#[derive(Debug, Clone, PartialEq, Eq)]
pub struct Framed {
    pub stream: u32,
    pub frame: Frame,
}

/// What a frame on a stream is.
pub struct FramedModel {
    pub stream: u32,
    pub frame: FrameModel,
}

#[derive(Debug, Clone, PartialEq, Eq)]
pub enum FrameError {
    BadMagic,
    /// A version this build does not implement. Refuse rather than guess.
    BadVersion(u32),
    /// An incompat bit we do not understand: the chunks themselves may not
    /// mean what we think.
    Incompatible(u32),
    TooLarge(u32),
    BadMode(u32),
    /// The payload's declared length does not match what its own fields
    /// describe: a self-check the fixed prefix makes possible.
    Inconsistent(&'static str),
    BadUtf8,
}

impl View for Sidecar {
    type V = SidecarModel;

    open spec fn view(&self) -> SidecarModel {
        SidecarModel { kind: self.kind@, bytes: self.bytes@ }
    }
}

/// What a list of sidecars is.
pub open spec fn sidecar_models(s: Seq<Sidecar>) -> Seq<SidecarModel> {
    Seq::new(s.len(), |i: int| s[i]@)
}

impl View for Frame {
    type V = FrameModel;

    open spec fn view(&self) -> FrameModel {
        match *self {
            Frame::StreamOpen {
                origin_id,
                sender_id,
                first_seq,
                last_seq,
                mode,
                provenance,
                sidecars,
            } => FrameModel::StreamOpen {
                origin_id: origin_id@,
                sender_id: sender_id@,
                first_seq,
                last_seq,
                mode,
                provenance: provenance@,
                sidecars: sidecar_models(sidecars@),
            },
            Frame::Chunk {
                seq,
                uncomp_len,
                comp_len,
                comp,
                first_write_ms,
                last_write_ms,
                sidecars,
            } => FrameModel::Chunk {
                seq,
                uncomp_len,
                comp_len,
                comp: match comp {
                    Some(bytes) => Some(bytes@),
                    None => None,
                },
                first_write_ms,
                last_write_ms,
                sidecars: sidecar_models(sidecars@),
            },
            Frame::Coverage { runs } => FrameModel::Coverage { runs: runs@ },
            Frame::Accepted { registration_id, runs } => FrameModel::Accepted {
                registration_id: registration_id@,
                runs: runs@,
            },
            Frame::Conflict { holder_origin, runs, reason } => FrameModel::Conflict {
                holder_origin: holder_origin@,
                runs: runs@,
                reason: reason@,
            },
            Frame::Unknown { kind, payload } => FrameModel::Unknown { kind, payload: payload@ },
        }
    }
}

impl View for Framed {
    type V = FramedModel;

    open spec fn view(&self) -> FramedModel {
        FramedModel { stream: self.stream, frame: self.frame@ }
    }
}

// ---------------------------------------------------------------- encoding

/// A length as its 32-bit field holds it.
pub open spec fn len32(n: nat) -> nat {
    n % 0x1_0000_0000
}

pub open spec fn mode_wire(m: Mode) -> u32 {
    match m {
        Mode::Coverage => 1,
        Mode::Index => 2,
        Mode::Frames => 3,
    }
}

pub open spec fn run_bytes(runs: Seq<Run>) -> Seq<u8>
    decreases runs.len(),
{
    if runs.len() == 0 {
        Seq::empty()
    } else {
        run_bytes(runs.drop_last()) + le(runs.last().start as nat, 8) + le(
            runs.last().end as nat,
            8,
        )
    }
}

/// A run list on the wire: how many, then both ends of each.
pub open spec fn run_list(runs: Seq<Run>) -> Seq<u8> {
    le(len32(runs.len()), 4) + run_bytes(runs)
}

pub open spec fn table_bytes(sidecars: Seq<SidecarModel>) -> Seq<u8>
    decreases sidecars.len(),
{
    if sidecars.len() == 0 {
        Seq::empty()
    } else {
        table_bytes(sidecars.drop_last()) + sidecars.last().kind + le(
            len32(sidecars.last().bytes.len()),
            4,
        )
    }
}

/// The sidecar table: how many, then the kind and length of each.
pub open spec fn sidecar_table(sidecars: Seq<SidecarModel>) -> Seq<u8> {
    le(len32(sidecars.len()), 4) + table_bytes(sidecars)
}

/// The sidecar bodies, end to end.
pub open spec fn sidecar_bodies(sidecars: Seq<SidecarModel>) -> Seq<u8>
    decreases sidecars.len(),
{
    if sidecars.len() == 0 {
        Seq::empty()
    } else {
        sidecar_bodies(sidecars.drop_last()) + sidecars.last().bytes
    }
}

pub open spec fn wire_kind_of(f: FrameModel) -> u32 {
    match f {
        FrameModel::StreamOpen { .. } => 1,
        FrameModel::Chunk { .. } => 2,
        FrameModel::Coverage { .. } => 3,
        FrameModel::Accepted { .. } => 4,
        FrameModel::Conflict { .. } => 5,
        FrameModel::Unknown { kind, .. } => kind,
    }
}

/// A frame's payload: every length a reader needs, then the bodies.
pub open spec fn payload_of(f: FrameModel) -> Seq<u8> {
    match f {
        FrameModel::StreamOpen {
            origin_id,
            sender_id,
            first_seq,
            last_seq,
            mode,
            provenance,
            sidecars,
        } => origin_id + sender_id + le(first_seq as nat, 8) + le(last_seq as nat, 8) + le(
            mode_wire(mode) as nat,
            4,
        ) + le(len32(provenance.len()), 4) + sidecar_table(sidecars) + provenance + sidecar_bodies(
            sidecars,
        ),
        FrameModel::Chunk {
            seq,
            uncomp_len,
            comp_len,
            comp,
            first_write_ms,
            last_write_ms,
            sidecars,
        } => le(seq as nat, 8) + le(uncomp_len as nat, 8) + le(comp_len as nat, 8) + le(
            first_write_ms as nat,
            8,
        ) + le(last_write_ms as nat, 8) + sidecar_table(sidecars) + (match comp {
            Some(bytes) => bytes,
            None => Seq::empty(),
        }) + sidecar_bodies(sidecars),
        FrameModel::Coverage { runs } => run_list(runs),
        FrameModel::Accepted { registration_id, runs } => registration_id + run_list(runs),
        FrameModel::Conflict { holder_origin, runs, reason } => holder_origin + run_list(runs)
            + le(len32(encode_utf8(reason).len()), 4) + encode_utf8(reason),
        FrameModel::Unknown { payload, .. } => payload,
    }
}

/// A frame on the wire.
pub open spec fn encoded(f: FramedModel) -> Seq<u8> {
    le(f.stream as nat, 4) + le(wire_kind_of(f.frame) as nat, 4) + le(
        len32(payload_of(f.frame).len()),
        4,
    ) + payload_of(f.frame)
}

/// A hello on the wire.
pub open spec fn encoded_hello(h: Hello) -> Seq<u8> {
    MAGIC@ + le(h.version as nat, 4) + le(h.incompat as nat, 4)
}

impl Mode {
    fn wire(self) -> (v: u32)
        ensures
            v == mode_wire(self),
    {
        match self {
            Mode::Coverage => 1,
            Mode::Index => 2,
            Mode::Frames => 3,
        }
    }
}

impl Frame {
    fn wire_kind(&self) -> (kind: u32)
        ensures
            kind == wire_kind_of(self@),
    {
        match self {
            Frame::StreamOpen { .. } => 1,
            Frame::Chunk { .. } => 2,
            Frame::Coverage { .. } => 3,
            Frame::Accepted { .. } => 4,
            Frame::Conflict { .. } => 5,
            Frame::Unknown { kind, .. } => *kind,
        }
    }
}

/// Appends a length as its 32-bit field.
fn put_len(out: &mut Vec<u8>, n: usize)
    ensures
        final(out)@ == old(out)@ + le(len32(n as nat), 4),
{
    put_u32(out, (n as u64 % 0x1_0000_0000) as u32);
}

fn put_runs(out: &mut Vec<u8>, runs: &Vec<Run>)
    ensures
        final(out)@ == old(out)@ + run_list(runs@),
{
    put_len(out, runs.len());
    let ghost head = out@;
    let mut i: usize = 0;
    assert(runs@.take(0) =~= Seq::empty());
    assert(head + run_bytes(runs@.take(0)) =~= head);
    while i < runs.len()
        invariant
            0 <= i <= runs@.len(),
            out@ == head + run_bytes(runs@.take(i as int)),
        decreases runs@.len() - i,
    {
        put_u64(out, runs[i].start);
        put_u64(out, runs[i].end);
        proof {
            let next = runs@.take(i as int + 1);
            assert(next.drop_last() =~= runs@.take(i as int));
            assert(out@ =~= head + run_bytes(next));
        }
        i = i + 1;
    }
    assert(runs@.take(i as int) =~= runs@);
    assert(out@ =~= old(out)@ + run_list(runs@));
}

/// The sidecar table: so every length a reader needs sits in the prefix.
fn put_sidecar_table(out: &mut Vec<u8>, sidecars: &Vec<Sidecar>)
    ensures
        final(out)@ == old(out)@ + sidecar_table(sidecar_models(sidecars@)),
{
    let ghost models = sidecar_models(sidecars@);
    put_len(out, sidecars.len());
    let ghost head = out@;
    let mut i: usize = 0;
    assert(models.take(0) =~= Seq::empty());
    assert(head + table_bytes(models.take(0)) =~= head);
    while i < sidecars.len()
        invariant
            0 <= i <= sidecars@.len(),
            models == sidecar_models(sidecars@),
            out@ == head + table_bytes(models.take(i as int)),
        decreases sidecars@.len() - i,
    {
        out.extend_from_slice(sidecars[i].kind.as_slice());
        put_len(out, sidecars[i].bytes.len());
        proof {
            let next = models.take(i as int + 1);
            assert(next.drop_last() =~= models.take(i as int));
            assert(out@ =~= head + table_bytes(next));
        }
        i = i + 1;
    }
    assert(models.take(i as int) =~= models);
    assert(out@ =~= old(out)@ + sidecar_table(models));
}

fn put_sidecar_bodies(out: &mut Vec<u8>, sidecars: &Vec<Sidecar>)
    ensures
        final(out)@ == old(out)@ + sidecar_bodies(sidecar_models(sidecars@)),
{
    let ghost models = sidecar_models(sidecars@);
    let mut i: usize = 0;
    assert(models.take(0) =~= Seq::empty());
    assert(out@ + sidecar_bodies(models.take(0)) =~= out@);
    while i < sidecars.len()
        invariant
            0 <= i <= sidecars@.len(),
            models == sidecar_models(sidecars@),
            out@ == old(out)@ + sidecar_bodies(models.take(i as int)),
        decreases sidecars@.len() - i,
    {
        out.extend_from_slice(sidecars[i].bytes.as_slice());
        proof {
            let next = models.take(i as int + 1);
            assert(next.drop_last() =~= models.take(i as int));
            assert(out@ =~= old(out)@ + sidecar_bodies(next));
        }
        i = i + 1;
    }
    assert(models.take(i as int) =~= models);
}

/// The bytes that open a connection.
pub fn encode_hello(h: Hello) -> (b: [u8; HELLO_LEN])
    ensures
        b@ == encoded_hello(h),
{
    let mut out: Vec<u8> = Vec::new();
    out.extend_from_slice(MAGIC.as_slice());
    put_u32(&mut out, h.version);
    put_u32(&mut out, h.incompat);
    proof {
        crate::bytes::lemma_le_len(h.version as nat, 4);
        crate::bytes::lemma_le_len(h.incompat as nat, 4);
    }
    let b: [u8; HELLO_LEN] = [
        out[0], out[1], out[2], out[3], out[4], out[5], out[6], out[7],
        out[8], out[9], out[10], out[11], out[12], out[13], out[14], out[15],
    ];
    assert(b@ =~= out@);
    assert(out@ =~= encoded_hello(h));
    b
}

/// Append one frame to `out`.
pub fn encode(f: &Framed, out: &mut Vec<u8>)
    ensures
        final(out)@ == old(out)@ + encoded(f@),
{
    let mut payload: Vec<u8> = Vec::new();
    match &f.frame {
        Frame::StreamOpen {
            origin_id,
            sender_id,
            first_seq,
            last_seq,
            mode,
            provenance,
            sidecars,
        } => {
            payload.extend_from_slice(origin_id.as_slice());
            payload.extend_from_slice(sender_id.as_slice());
            put_u64(&mut payload, *first_seq);
            put_u64(&mut payload, *last_seq);
            put_u32(&mut payload, mode.wire());
            put_len(&mut payload, provenance.len());
            put_sidecar_table(&mut payload, sidecars);
            payload.extend_from_slice(provenance.as_slice());
            put_sidecar_bodies(&mut payload, sidecars);
        },
        Frame::Chunk {
            seq,
            uncomp_len,
            comp_len,
            comp,
            first_write_ms,
            last_write_ms,
            sidecars,
        } => {
            put_u64(&mut payload, *seq);
            put_u64(&mut payload, *uncomp_len);
            put_u64(&mut payload, *comp_len);
            put_u64(&mut payload, *first_write_ms);
            put_u64(&mut payload, *last_write_ms);
            put_sidecar_table(&mut payload, sidecars);
            if let Some(bytes) = comp {
                payload.extend_from_slice(bytes.as_slice());
            }
            put_sidecar_bodies(&mut payload, sidecars);
        },
        Frame::Coverage { runs } => put_runs(&mut payload, runs),
        Frame::Accepted { registration_id, runs } => {
            payload.extend_from_slice(registration_id.as_slice());
            put_runs(&mut payload, runs);
        },
        Frame::Conflict { holder_origin, runs, reason } => {
            payload.extend_from_slice(holder_origin.as_slice());
            put_runs(&mut payload, runs);
            put_len(&mut payload, reason.as_str().as_bytes().len());
            payload.extend_from_slice(reason.as_str().as_bytes());
        },
        Frame::Unknown { payload: p, .. } => payload.extend_from_slice(p.as_slice()),
    }
    assert(payload@ =~= payload_of(f.frame@));
    put_u32(out, f.stream);
    put_u32(out, f.frame.wire_kind());
    put_len(out, payload.len());
    out.extend_from_slice(payload.as_slice());
    assert(out@ =~= old(out)@ + encoded(f@));
}

// ---------------------------------------------------------------- decoding

pub open spec fn run_at(p: Seq<u8>, at: int) -> Run {
    Run { start: le_at(p, at, 8) as u64, end: le_at(p, at + 8, 8) as u64 }
}

/// The run list that starts at `at`, and where it ends.
pub open spec fn runs_at(p: Seq<u8>, at: int) -> Result<(Seq<Run>, int), FrameError> {
    let n = le_at(p, at, 4) as int;
    if p.len() < at + 4 {
        Err(FrameError::Inconsistent("run count"))
    } else if n * 16 > p.len() - (at + 4) {
        Err(FrameError::Inconsistent("run count exceeds payload"))
    } else if exists|i: int|
        0 <= i < n && (#[trigger] run_at(p, at + 4 + 16 * i)).end < run_at(
            p,
            at + 4 + 16 * i,
        ).start {
        Err(FrameError::Inconsistent("run ends before it starts"))
    } else {
        Ok((Seq::new(n as nat, |i: int| run_at(p, at + 4 + 16 * i)), at + 4 + 16 * n))
    }
}

/// One entry of a sidecar table: the kind, and how long the body is.
pub struct EntryModel {
    pub kind: Seq<u8>,
    pub len: nat,
}

pub open spec fn entry_at(p: Seq<u8>, at: int) -> EntryModel {
    EntryModel { kind: p.subrange(at, at + 8), len: le_at(p, at + 8, 4) }
}

/// The sidecar table that starts at `at`, and where it ends.
pub open spec fn table_at(p: Seq<u8>, at: int) -> Result<(Seq<EntryModel>, int), FrameError> {
    let n = le_at(p, at, 4) as int;
    if p.len() < at + 4 {
        Err(FrameError::Inconsistent("sidecar count"))
    } else if n * 12 > p.len() - (at + 4) {
        Err(FrameError::Inconsistent("sidecar count exceeds payload"))
    } else {
        Ok((Seq::new(n as nat, |i: int| entry_at(p, at + 4 + 12 * i)), at + 4 + 12 * n))
    }
}

/// How many bytes the first `k` bodies of a table take.
pub open spec fn bodies_len(table: Seq<EntryModel>, k: int) -> int
    decreases k,
{
    if k <= 0 {
        0
    } else {
        bodies_len(table, k - 1) + table[k - 1].len
    }
}

/// The sidecars whose bodies start at `at`, in the order of their table.
pub open spec fn bodies_at(p: Seq<u8>, at: int, table: Seq<EntryModel>) -> Seq<SidecarModel> {
    Seq::new(
        table.len(),
        |i: int|
            SidecarModel {
                kind: table[i].kind,
                bytes: p.subrange(at + bodies_len(table, i), at + bodies_len(table, i + 1)),
            },
    )
}

/// Whether all the bodies of a table that start at `at` are there.
pub open spec fn bodies_fit(p: Seq<u8>, at: int, table: Seq<EntryModel>) -> bool {
    at + bodies_len(table, table.len() as int) <= p.len()
}

pub open spec fn mode_of(v: u32) -> Result<Mode, FrameError> {
    if v == 1 {
        Ok(Mode::Coverage)
    } else if v == 2 {
        Ok(Mode::Index)
    } else if v == 3 {
        Ok(Mode::Frames)
    } else {
        Err(FrameError::BadMode(v))
    }
}

pub open spec fn stream_open_of(p: Seq<u8>) -> Result<FrameModel, FrameError> {
    if p.len() < 16 {
        Err(FrameError::Inconsistent("origin id"))
    } else if p.len() < 32 {
        Err(FrameError::Inconsistent("sender id"))
    } else if p.len() < 40 {
        Err(FrameError::Inconsistent("first seq"))
    } else if p.len() < 48 {
        Err(FrameError::Inconsistent("last seq"))
    } else if p.len() < 52 {
        Err(FrameError::Inconsistent("mode"))
    } else {
        match mode_of(le_at(p, 48, 4) as u32) {
            Err(e) => Err(e),
            Ok(mode) => if p.len() < 56 {
                Err(FrameError::Inconsistent("provenance length"))
            } else {
                let prov_len = le_at(p, 52, 4) as int;
                match table_at(p, 56) {
                    Err(e) => Err(e),
                    Ok((table, at)) => if at + prov_len > p.len() {
                        Err(FrameError::Inconsistent("provenance"))
                    } else if !bodies_fit(p, at + prov_len, table) {
                        Err(FrameError::Inconsistent("sidecar body"))
                    } else {
                        Ok(
                            FrameModel::StreamOpen {
                                origin_id: p.subrange(0, 16),
                                sender_id: p.subrange(16, 32),
                                first_seq: le_at(p, 32, 8) as u64,
                                last_seq: le_at(p, 40, 8) as u64,
                                mode,
                                provenance: p.subrange(at, at + prov_len),
                                sidecars: bodies_at(p, at + prov_len, table),
                            },
                        )
                    },
                }
            },
        }
    }
}

pub open spec fn chunk_of(p: Seq<u8>) -> Result<FrameModel, FrameError> {
    if p.len() < 8 {
        Err(FrameError::Inconsistent("seq"))
    } else if p.len() < 16 {
        Err(FrameError::Inconsistent("uncomp_len"))
    } else if p.len() < 24 {
        Err(FrameError::Inconsistent("comp_len"))
    } else if p.len() < 32 {
        Err(FrameError::Inconsistent("first write"))
    } else if p.len() < 40 {
        Err(FrameError::Inconsistent("last write"))
    } else {
        match table_at(p, 40) {
            Err(e) => Err(e),
            Ok((table, at)) => {
                let comp_len = le_at(p, 16, 8) as u64;
                // What is left once the sidecar bodies are set aside is
                // either the whole chunk or nothing.
                let rest = p.len() - at - bodies_len(table, table.len() as int);
                if rest < 0 {
                    Err(FrameError::Inconsistent("sidecar bodies exceed payload"))
                } else if rest != 0 && rest != comp_len {
                    Err(
                        FrameError::Inconsistent(
                            "chunk payload is neither absent nor comp_len bytes",
                        ),
                    )
                } else {
                    Ok(
                        FrameModel::Chunk {
                            seq: le_at(p, 0, 8) as u64,
                            uncomp_len: le_at(p, 8, 8) as u64,
                            comp_len,
                            comp: if rest == 0 {
                                None
                            } else {
                                Some(p.subrange(at, at + rest))
                            },
                            first_write_ms: le_at(p, 24, 8) as u64,
                            last_write_ms: le_at(p, 32, 8) as u64,
                            sidecars: bodies_at(p, at + rest, table),
                        },
                    )
                }
            },
        }
    }
}

pub open spec fn conflict_of(p: Seq<u8>) -> Result<FrameModel, FrameError> {
    if p.len() < 16 {
        Err(FrameError::Inconsistent("holder origin"))
    } else {
        match runs_at(p, 16) {
            Err(e) => Err(e),
            Ok((runs, at)) => if p.len() < at + 4 {
                Err(FrameError::Inconsistent("reason length"))
            } else {
                let n = le_at(p, at, 4) as int;
                if p.len() < at + 4 + n {
                    Err(FrameError::Inconsistent("reason"))
                } else {
                    let text = p.subrange(at + 4, at + 4 + n);
                    if !valid_utf8(text) {
                        Err(FrameError::BadUtf8)
                    } else {
                        Ok(
                            FrameModel::Conflict {
                                holder_origin: p.subrange(0, 16),
                                runs,
                                reason: decode_utf8(text),
                            },
                        )
                    }
                }
            },
        }
    }
}

/// What a payload of the given kind says, or why it says nothing.
pub open spec fn payload_frame(kind: u32, p: Seq<u8>) -> Result<FrameModel, FrameError> {
    if kind == 1 {
        stream_open_of(p)
    } else if kind == 2 {
        chunk_of(p)
    } else if kind == 3 {
        match runs_at(p, 0) {
            Err(e) => Err(e),
            Ok((runs, _)) => Ok(FrameModel::Coverage { runs }),
        }
    } else if kind == 4 {
        if p.len() < 16 {
            Err(FrameError::Inconsistent("registration id"))
        } else {
            match runs_at(p, 16) {
                Err(e) => Err(e),
                Ok((runs, _)) => Ok(
                    FrameModel::Accepted { registration_id: p.subrange(0, 16), runs },
                ),
            }
        }
    } else if kind == 5 {
        conflict_of(p)
    } else {
        Ok(FrameModel::Unknown { kind, payload: p })
    }
}

/// The first frame of a buffer and the bytes it takes: nothing while the
/// buffer is short of a whole frame, an error where the stream is malformed.
pub open spec fn decoded(buf: Seq<u8>) -> Result<Option<(FramedModel, int)>, FrameError> {
    let len = le_at(buf, 8, 4) as int;
    if buf.len() < FRAME_HEADER_LEN {
        Ok(None)
    } else if len > MAX_PAYLOAD {
        Err(FrameError::TooLarge(len as u32))
    } else if buf.len() < FRAME_HEADER_LEN + len {
        Ok(None)
    } else {
        match payload_frame(le_at(buf, 4, 4) as u32, buf.subrange(12, 12 + len)) {
            Err(e) => Err(e),
            Ok(frame) => Ok(
                Some((FramedModel { stream: le_at(buf, 0, 4) as u32, frame }, 12 + len)),
            ),
        }
    }
}

/// What a buffer says as the opening of a connection.
pub open spec fn decoded_hello(buf: Seq<u8>) -> Result<Option<(Hello, int)>, FrameError> {
    let version = le_at(buf, 8, 4) as u32;
    let incompat = le_at(buf, 12, 4) as u32;
    if buf.len() < HELLO_LEN {
        Ok(None)
    } else if buf.subrange(0, 8) != MAGIC@ {
        Err(FrameError::BadMagic)
    } else if version != VERSION {
        Err(FrameError::BadVersion(version))
    } else if incompat != 0 {
        Err(FrameError::Incompatible(incompat))
    } else {
        Ok(Some((Hello { version, incompat }, HELLO_LEN as int)))
    }
}

impl Mode {
    fn from_wire(v: u32) -> (r: Result<Mode, FrameError>)
        ensures
            r == mode_of(v),
    {
        match v {
            1 => Ok(Mode::Coverage),
            2 => Ok(Mode::Index),
            3 => Ok(Mode::Frames),
            // 0 is reserved so an unset field cannot read as a valid mode.
            other => Err(FrameError::BadMode(other)),
        }
    }
}

/// The sixteen bytes at `at`.
fn id_at(p: &[u8], at: usize) -> (id: [u8; 16])
    requires
        at + 16 <= p@.len(),
    ensures
        id@ == p@.subrange(at as int, at + 16),
{
    let size: usize = p.len();
    assert(at + 16 <= size);
    let b: &[u8] = slice_subrange(p, at, at + 16);
    let id: [u8; 16] = [
        b[0], b[1], b[2], b[3], b[4], b[5], b[6], b[7],
        b[8], b[9], b[10], b[11], b[12], b[13], b[14], b[15],
    ];
    assert(id@ =~= p@.subrange(at as int, at + 16));
    id
}

fn get_runs(p: &[u8], at: usize) -> (r: Result<(Vec<Run>, usize), FrameError>)
    requires
        at <= p@.len() <= MAX_PAYLOAD,
    ensures
        match r {
            Ok((runs, end)) => runs_at(p@, at as int) == Ok::<(Seq<Run>, int), FrameError>(
                (runs@, end as int),
            ) && end <= p@.len(),
            Err(e) => runs_at(p@, at as int) == Err::<(Seq<Run>, int), FrameError>(e),
        },
{
    if p.len() - at < 4 {
        return Err(FrameError::Inconsistent("run count"));
    }
    let n: u64 = get_u32(p, at) as u64;
    let start: usize = at + 4;
    // Each run is 16 bytes, so a count the payload cannot hold is refused
    // before it is allocated for.
    if n * 16 > (p.len() - start) as u64 {
        return Err(FrameError::Inconsistent("run count exceeds payload"));
    }
    let count: usize = n as usize;
    let mut runs: Vec<Run> = Vec::with_capacity(count);
    let mut i: usize = 0;
    while i < count
        invariant
            0 <= i <= count,
            start == at + 4,
            count == le_at(p@, at as int, 4),
            count * 16 <= p@.len() - start,
            p@.len() <= MAX_PAYLOAD,
            runs@ == Seq::new(i as nat, |j: int| run_at(p@, at + 4 + 16 * j)),
            forall|j: int| 0 <= j < i ==> run_at(p@, at + 4 + 16 * j).start <= (#[trigger] run_at(
                p@,
                at + 4 + 16 * j,
            )).end,
        decreases count - i,
    {
        let here: usize = start + 16 * i;
        let run = Run { start: get_u64(p, here), end: get_u64(p, here + 8) };
        assert(run == run_at(p@, at + 4 + 16 * i));
        if run.end < run.start {
            return Err(FrameError::Inconsistent("run ends before it starts"));
        }
        runs.push(run);
        i = i + 1;
        assert(runs@ =~= Seq::new(i as nat, |j: int| run_at(p@, at + 4 + 16 * j)));
    }
    Ok((runs, start + 16 * count))
}

/// A sidecar table as read: kinds and lengths, no bodies yet.
struct Entry {
    kind: [u8; 8],
    len: u32,
}

spec fn entry_models(table: Seq<Entry>) -> Seq<EntryModel> {
    Seq::new(table.len(), |i: int| EntryModel { kind: table[i].kind@, len: table[i].len as nat })
}

fn get_sidecar_table(p: &[u8], at: usize) -> (r: Result<(Vec<Entry>, usize), FrameError>)
    requires
        at <= p@.len() <= MAX_PAYLOAD,
    ensures
        match r {
            Ok((table, end)) => table_at(p@, at as int) == Ok::<
                (Seq<EntryModel>, int),
                FrameError,
            >((entry_models(table@), end as int)) && end <= p@.len(),
            Err(e) => table_at(p@, at as int) == Err::<(Seq<EntryModel>, int), FrameError>(e),
        },
{
    if p.len() - at < 4 {
        return Err(FrameError::Inconsistent("sidecar count"));
    }
    let n: u64 = get_u32(p, at) as u64;
    let start: usize = at + 4;
    if n * 12 > (p.len() - start) as u64 {
        return Err(FrameError::Inconsistent("sidecar count exceeds payload"));
    }
    let count: usize = n as usize;
    let mut table: Vec<Entry> = Vec::with_capacity(count);
    let mut i: usize = 0;
    assert(entry_models(table@) =~= Seq::new(0, |j: int| entry_at(p@, at + 4 + 12 * j)));
    while i < count
        invariant
            0 <= i <= count,
            start == at + 4,
            count * 12 <= p@.len() - start,
            p@.len() <= MAX_PAYLOAD,
            entry_models(table@) == Seq::new(i as nat, |j: int| entry_at(p@, at + 4 + 12 * j)),
        decreases count - i,
    {
        let here: usize = start + 12 * i;
        let b: &[u8] = slice_subrange(p, here, here + 8);
        let kind: [u8; 8] = [b[0], b[1], b[2], b[3], b[4], b[5], b[6], b[7]];
        assert(kind@ =~= p@.subrange(here as int, here + 8));
        let ghost before = entry_models(table@);
        assert(before.len() == table@.len());
        table.push(Entry { kind, len: get_u32(p, here + 8) });
        i = i + 1;
        proof {
            let want = Seq::new(i as nat, |j: int| entry_at(p@, at + 4 + 12 * j));
            assert forall|j: int| 0 <= j < i implies entry_models(table@)[j] == want[j] by {
                if j < i - 1 {
                    assert(entry_models(table@)[j] == before[j]);
                }
            }
            assert(entry_models(table@) =~= want);
        }
    }
    Ok((table, start + 12 * count))
}

proof fn lemma_bodies_len_mono(table: Seq<EntryModel>, i: int, j: int)
    requires
        0 <= i <= j <= table.len(),
    ensures
        0 <= bodies_len(table, i) <= bodies_len(table, j),
    decreases j,
{
    if j > 0 {
        if i < j {
            lemma_bodies_len_mono(table, i, j - 1);
        } else {
            lemma_bodies_len_mono(table, i - 1, j - 1);
        }
    }
}

/// How many bytes the bodies of a table take.
fn table_total(table: &Vec<Entry>) -> (total: u64)
    requires
        table@.len() <= MAX_PAYLOAD,
    ensures
        total == bodies_len(entry_models(table@), table@.len() as int),
        total <= 0x400_0000 * 0xffff_ffff,
{
    let ghost models = entry_models(table@);
    let mut total: u64 = 0;
    let mut i: usize = 0;
    while i < table.len()
        invariant
            0 <= i <= table@.len() <= MAX_PAYLOAD,
            models == entry_models(table@),
            total == bodies_len(models, i as int),
            total <= i * 0xffff_ffff,
        decreases table@.len() - i,
    {
        assert(i * 0xffff_ffff <= 0x400_0000 * 0xffff_ffff) by (nonlinear_arith)
            requires
                0 <= i <= 0x400_0000,
        ;
        assert(bodies_len(models, i + 1) == bodies_len(models, i as int) + models[i as int].len);
        total = total + table[i].len as u64;
        i = i + 1;
    }
    assert(i * 0xffff_ffff <= 0x400_0000 * 0xffff_ffff) by (nonlinear_arith)
        requires
            0 <= i <= 0x400_0000,
    ;
    total
}

/// The sidecars whose bodies start at `at`.
fn get_sidecars(p: &[u8], at: usize, table: &Vec<Entry>) -> (sidecars: Vec<Sidecar>)
    requires
        bodies_fit(p@, at as int, entry_models(table@)),
    ensures
        sidecar_models(sidecars@) == bodies_at(p@, at as int, entry_models(table@)),
{
    let ghost models = entry_models(table@);
    let mut out: Vec<Sidecar> = Vec::with_capacity(table.len());
    let mut here: usize = at;
    proof {
        lemma_bodies_len_mono(models, 0, models.len() as int);
    }
    let mut i: usize = 0;
    while i < table.len()
        invariant
            0 <= i <= table@.len(),
            models == entry_models(table@),
            bodies_fit(p@, at as int, models),
            here == at + bodies_len(models, i as int),
            here <= p@.len(),
            out@.len() == i,
            forall|j: int| 0 <= j < i ==> (#[trigger] out@[j])@ == bodies_at(p@, at as int, models)[j],
        decreases table@.len() - i,
    {
        let size: usize = p.len();
        let ghost len = table@[i as int].len as int;
        proof {
            assert(bodies_len(models, i + 1) == bodies_len(models, i as int) + models[i as int].len);
            lemma_bodies_len_mono(models, i + 1, models.len() as int);
        }
        assert(here + len <= size);
        let end: usize = here + table[i].len as usize;
        let sidecar = Sidecar {
            kind: table[i].kind,
            bytes: slice_to_vec(slice_subrange(p, here, end)),
        };
        out.push(sidecar);
        assert(sidecar@ == bodies_at(p@, at as int, models)[i as int]);
        here = end;
        i = i + 1;
    }
    assert(sidecar_models(out@) =~= bodies_at(p@, at as int, models));
    out
}

/// What a connection's first bytes say. `Ok(None)` is "not a whole hello yet".
pub fn decode_hello(buf: &[u8]) -> (r: Result<Option<(Hello, usize)>, FrameError>)
    ensures
        match r {
            Ok(Some((h, used))) => decoded_hello(buf@) == Ok::<_, FrameError>(
                Some((h, used as int)),
            ),
            Ok(None) => decoded_hello(buf@) == Ok::<Option<(Hello, int)>, FrameError>(None),
            Err(e) => decoded_hello(buf@) == Err::<Option<(Hello, int)>, FrameError>(e),
        },
{
    if buf.len() < HELLO_LEN {
        return Ok(None);
    }
    let mut i: usize = 0;
    while i < 8
        invariant
            0 <= i <= 8,
            buf@.len() >= HELLO_LEN,
            forall|j: int| 0 <= j < i ==> buf@[j] == MAGIC@[j],
        decreases 8 - i,
    {
        if buf[i] != MAGIC[i] {
            assert(buf@.subrange(0, 8)[i as int] != MAGIC@[i as int]);
            return Err(FrameError::BadMagic);
        }
        i = i + 1;
    }
    assert(buf@.subrange(0, 8) =~= MAGIC@);
    let version: u32 = get_u32(buf, 8);
    if version != VERSION {
        return Err(FrameError::BadVersion(version));
    }
    let incompat: u32 = get_u32(buf, 12);
    if incompat != 0 {
        return Err(FrameError::Incompatible(incompat));
    }
    Ok(Some((Hello { version, incompat }, HELLO_LEN)))
}

fn decode_stream_open(p: &[u8]) -> (r: Result<Frame, FrameError>)
    requires
        p@.len() <= MAX_PAYLOAD,
    ensures
        match r {
            Ok(f) => stream_open_of(p@) == Ok::<FrameModel, FrameError>(f@),
            Err(e) => stream_open_of(p@) == Err::<FrameModel, FrameError>(e),
        },
{
    if p.len() < 16 {
        return Err(FrameError::Inconsistent("origin id"));
    }
    if p.len() < 32 {
        return Err(FrameError::Inconsistent("sender id"));
    }
    if p.len() < 40 {
        return Err(FrameError::Inconsistent("first seq"));
    }
    if p.len() < 48 {
        return Err(FrameError::Inconsistent("last seq"));
    }
    if p.len() < 52 {
        return Err(FrameError::Inconsistent("mode"));
    }
    let mode = match Mode::from_wire(get_u32(p, 48)) {
        Ok(mode) => mode,
        Err(e) => return Err(e),
    };
    if p.len() < 56 {
        return Err(FrameError::Inconsistent("provenance length"));
    }
    let prov_len: u64 = get_u32(p, 52) as u64;
    let (table, at) = match get_sidecar_table(p, 56) {
        Ok(found) => found,
        Err(e) => return Err(e),
    };
    if at as u64 + prov_len > p.len() as u64 {
        return Err(FrameError::Inconsistent("provenance"));
    }
    let bodies: usize = at + prov_len as usize;
    assert(table@.len() == entry_models(table@).len());
    if bodies as u64 + table_total(&table) > p.len() as u64 {
        return Err(FrameError::Inconsistent("sidecar body"));
    }
    Ok(
        Frame::StreamOpen {
            origin_id: id_at(p, 0),
            sender_id: id_at(p, 16),
            first_seq: get_u64(p, 32),
            last_seq: get_u64(p, 40),
            mode,
            provenance: slice_to_vec(slice_subrange(p, at, bodies)),
            sidecars: get_sidecars(p, bodies, &table),
        },
    )
}

fn decode_chunk(p: &[u8]) -> (r: Result<Frame, FrameError>)
    requires
        p@.len() <= MAX_PAYLOAD,
    ensures
        match r {
            Ok(f) => chunk_of(p@) == Ok::<FrameModel, FrameError>(f@),
            Err(e) => chunk_of(p@) == Err::<FrameModel, FrameError>(e),
        },
{
    if p.len() < 8 {
        return Err(FrameError::Inconsistent("seq"));
    }
    if p.len() < 16 {
        return Err(FrameError::Inconsistent("uncomp_len"));
    }
    if p.len() < 24 {
        return Err(FrameError::Inconsistent("comp_len"));
    }
    if p.len() < 32 {
        return Err(FrameError::Inconsistent("first write"));
    }
    if p.len() < 40 {
        return Err(FrameError::Inconsistent("last write"));
    }
    let comp_len: u64 = get_u64(p, 16);
    let (table, at) = match get_sidecar_table(p, 40) {
        Ok(found) => found,
        Err(e) => return Err(e),
    };
    assert(table@.len() == entry_models(table@).len());
    let bodies: u64 = table_total(&table);
    if bodies > (p.len() - at) as u64 {
        return Err(FrameError::Inconsistent("sidecar bodies exceed payload"));
    }
    // Whether the bytes came along is decidable from the lengths already
    // read, and self-checking: the remainder is either the whole chunk or
    // nothing. Anything else is a malformed frame rather than a guess about
    // which mode the sender was in.
    let rest: usize = p.len() - at - bodies as usize;
    let comp: Option<Vec<u8>> = if rest == 0 {
        None
    } else if rest as u64 == comp_len {
        Some(slice_to_vec(slice_subrange(p, at, at + rest)))
    } else {
        return Err(
            FrameError::Inconsistent("chunk payload is neither absent nor comp_len bytes"),
        );
    };
    Ok(
        Frame::Chunk {
            seq: get_u64(p, 0),
            uncomp_len: get_u64(p, 8),
            comp_len,
            comp,
            first_write_ms: get_u64(p, 24),
            last_write_ms: get_u64(p, 32),
            sidecars: get_sidecars(p, at + rest, &table),
        },
    )
}

fn decode_conflict(p: &[u8]) -> (r: Result<Frame, FrameError>)
    requires
        p@.len() <= MAX_PAYLOAD,
    ensures
        match r {
            Ok(f) => conflict_of(p@) == Ok::<FrameModel, FrameError>(f@),
            Err(e) => conflict_of(p@) == Err::<FrameModel, FrameError>(e),
        },
{
    if p.len() < 16 {
        return Err(FrameError::Inconsistent("holder origin"));
    }
    let (runs, at) = match get_runs(p, 16) {
        Ok(found) => found,
        Err(e) => return Err(e),
    };
    if p.len() - at < 4 {
        return Err(FrameError::Inconsistent("reason length"));
    }
    let n: u64 = get_u32(p, at) as u64;
    if n > (p.len() - at - 4) as u64 {
        return Err(FrameError::Inconsistent("reason"));
    }
    match utf8_text(slice_subrange(p, at + 4, at + 4 + n as usize)) {
        Some(reason) => Ok(Frame::Conflict { holder_origin: id_at(p, 0), runs, reason }),
        None => Err(FrameError::BadUtf8),
    }
}

/// Decode one frame. `Ok(None)` means the buffer does not hold a whole frame
/// yet: the caller reads more and asks again. Errors are permanent: the
/// stream is malformed and cannot be resynchronised, because framing is the
/// length field.
pub fn decode(buf: &[u8]) -> (r: Result<Option<(Framed, usize)>, FrameError>)
    ensures
        match r {
            Ok(Some((f, used))) => decoded(buf@) == Ok::<_, FrameError>(Some((f@, used as int))),
            Ok(None) => decoded(buf@) == Ok::<Option<(FramedModel, int)>, FrameError>(None),
            Err(e) => decoded(buf@) == Err::<Option<(FramedModel, int)>, FrameError>(e),
        },
{
    if buf.len() < FRAME_HEADER_LEN {
        return Ok(None);
    }
    let stream: u32 = get_u32(buf, 0);
    let kind: u32 = get_u32(buf, 4);
    let len: u32 = get_u32(buf, 8);
    if len > MAX_PAYLOAD {
        return Err(FrameError::TooLarge(len));
    }
    let total: usize = FRAME_HEADER_LEN + len as usize;
    if buf.len() < total {
        return Ok(None);
    }
    let payload: &[u8] = slice_subrange(buf, FRAME_HEADER_LEN, total);
    let parsed: Result<Frame, FrameError> = match kind {
        1 => decode_stream_open(payload),
        2 => decode_chunk(payload),
        3 => match get_runs(payload, 0) {
            Ok((runs, _)) => Ok(Frame::Coverage { runs }),
            Err(e) => Err(e),
        },
        4 => if payload.len() < 16 {
            Err(FrameError::Inconsistent("registration id"))
        } else {
            match get_runs(payload, 16) {
                Ok((runs, _)) => Ok(Frame::Accepted { registration_id: id_at(payload, 0), runs }),
                Err(e) => Err(e),
            }
        },
        5 => decode_conflict(payload),
        other => Ok(Frame::Unknown { kind: other, payload: slice_to_vec(payload) }),
    };
    match parsed {
        Ok(frame) => Ok(Some((Framed { stream, frame }, total))),
        Err(e) => Err(e),
    }
}

/// A sidecar kind's tag: the first eight bytes of its name, padded with NULs.
pub open spec fn tag_of(name: Seq<char>) -> Seq<u8> {
    let b = encode_utf8(name);
    Seq::new(8, |i: int| if i < b.len() { b[i] } else { 0 })
}

impl Sidecar {
    /// A tag from a string, padded with NULs. Longer than 8 bytes is a
    /// programming error, not a wire condition, and is cut.
    pub fn tag(name: &str) -> (t: [u8; 8])
        ensures
            t@ == tag_of(name@),
    {
        let mut t: [u8; 8] = [0; 8];
        let b: &[u8] = name.as_bytes();
        let mut i: usize = 0;
        while i < 8
            invariant
                i <= 8,
                b@ == encode_utf8(name@),
                forall|j: int| 0 <= j < i ==> #[trigger] t@[j] == tag_of(name@)[j],
            decreases 8 - i,
        {
            t[i] = if i < b.len() {
                b[i]
            } else {
                0
            };
            i = i + 1;
        }
        assert(t@ =~= tag_of(name@));
        t
    }
}

impl FrameError {
    /// What a frame error says.
    pub open spec fn said(self) -> Seq<char> {
        match self {
            FrameError::BadMagic => "not a timberfs replication stream"@,
            FrameError::BadVersion(v) => "stream version "@ + decimal(v as nat)
                + " is newer than this build ("@ + decimal(VERSION as nat) + ")"@,
            FrameError::Incompatible(bits) => "stream sets incompatible flags 0x"@ + hex_number(
                bits as nat,
            ) + " this build does not implement"@,
            FrameError::TooLarge(n) => "frame payload of "@ + decimal(n as nat)
                + " bytes exceeds the "@ + decimal(MAX_PAYLOAD as nat) + " cap"@,
            FrameError::BadMode(v) => "unknown stream mode "@ + decimal(v as nat),
            FrameError::Inconsistent(what) => "malformed frame: "@ + what@,
            FrameError::BadUtf8 => "malformed frame: text is not UTF-8"@,
        }
    }

    /// What a frame error says.
    pub fn message(&self) -> (r: String)
        ensures
            r@ == self.said(),
    {
        match self {
            FrameError::BadMagic => text("not a timberfs replication stream"),
            FrameError::BadVersion(v) => text("stream version ").concat(
                number_text(*v as u64).as_str(),
            ).concat(" is newer than this build (").concat(
                number_text(VERSION as u64).as_str(),
            ).concat(")"),
            FrameError::Incompatible(bits) => text("stream sets incompatible flags 0x").concat(
                hex_number_text(*bits as u64).as_str(),
            ).concat(" this build does not implement"),
            FrameError::TooLarge(n) => text("frame payload of ").concat(
                number_text(*n as u64).as_str(),
            ).concat(" bytes exceeds the ").concat(number_text(MAX_PAYLOAD as u64).as_str()).concat(
                " cap",
            ),
            FrameError::BadMode(v) => text("unknown stream mode ").concat(
                number_text(*v as u64).as_str(),
            ),
            FrameError::Inconsistent(what) => text("malformed frame: ").concat(what),
            FrameError::BadUtf8 => text("malformed frame: text is not UTF-8"),
        }
    }
}

// ------------------------------------------------------------------- uuids

/// A hyphenated UUID string to its 16 bytes. The manifest stores ids as text;
/// the wire carries them as bytes.
pub fn uuid_bytes(s: &str) -> (r: Option<[u8; 16]>)
    ensures
        match r {
            Some(b) => uuid_of(s@) == Some(b@),
            None => uuid_of(s@) is None,
        },
{
    parse_uuid(s)
}

/// The inverse, in the form manifests hold.
pub fn uuid_string(b: &[u8; 16]) -> (r: String)
    ensures
        r@ == uuid_chars(b@),
{
    uuid_spelled(b)
}

} // verus!
