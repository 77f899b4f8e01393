//! The layout of the backing store.
//!
//! Each logical file `<name>` is backed by two files in the backing directory:
//!
//!   `<name>.trunk`: the data, a plain concatenation of zstd frames, one frame
//!   per chunk. Deliberately header-free, so that stock tools recover the
//!   content.
//!
//!   `<name>.rings`: the index, a header followed by fixed-size records, one
//!   per chunk, appended in write order. Records are therefore sorted by
//!   uncompressed offset and by chunk number. They are only mostly sorted by
//!   write time, which is a wall clock; anything that needs a single monotonic
//!   position uses the chunk number.

use crate::bytes::{
    get_u64, le, le_at, lemma_le_len, lemma_le_round_trip, lemma_pow256, put_u64,
};
use crate::paths::{join, joined_path};
use crate::text::{decimal, hex_padded, hex_padded_text, number_text, text};
use crate::uuid::{parse_uuid, uuid_chars, uuid_of, uuid_spelled};
use vstd::prelude::*;
use vstd::slice::slice_subrange;
use vstd::string::StringExecFns;

verus! {

/// `RING0002`.
pub const RINGS_MAGIC: [u8; 8] = [0x52, 0x49, 0x4e, 0x47, 0x30, 0x30, 0x30, 0x32];

/// The header length this version writes. A reader must use the length the
/// file itself declares, or a later version's longer header would shift every
/// record offset underneath it.
pub const RINGS_HEADER_LEN: u64 = 64;

/// Below this a header cannot hold the fields every reader requires.
pub const RINGS_HEADER_MIN: u64 = 32;

pub const RECORD_LEN: usize = 56;

/// `RING0001`: the layout before chunk numbers, an 8-byte header and 48-byte
/// records. Read for compatibility; never written.
pub const RINGS_MAGIC_V1: [u8; 8] = [0x52, 0x49, 0x4e, 0x47, 0x30, 0x30, 0x30, 0x31];

pub const RINGS_HEADER_LEN_V1: u64 = 8;

pub const RECORD_LEN_V1: usize = 48;

/// Where the store id sits in a header.
pub const STORE_ID_OFF: usize = 48;

/// Which layout a `.rings` file is in. A reader handles both; a writer
/// migrates the old one before it appends, since the two strides cannot be
/// mixed in one file.
#[derive(Clone, Copy, Debug, PartialEq, Eq, Structural)]
pub enum RingsVersion {
    V1,
    V2,
}

pub const TRUNK_EXT: &'static str = "trunk";

pub const RINGS_EXT: &'static str = "rings";

pub const GRAIN_EXT: &'static str = "grain";

pub const BARK_EXT: &'static str = "bark";

/// The collapse-head counter: even means idle, odd means a collapse is in
/// flight. Missing reads as 0.
pub const SEQ_EXT: &'static str = "seq";

/// The collapse-head crash marker: present only mid-collapse.
pub const TRIM_EXT: &'static str = "trim";

/// The write-ahead sidecar: raw copies of appended entries, synced ahead of
/// the chunk that eventually compresses them.
pub const SAP_EXT: &'static str = "sap";

/// The sidecar's name while it is handed over mid-flush.
pub const SAP_SEAL_EXT: &'static str = "sap.seal";

/// The file of a store that carries the given extension.
pub open spec fn backing_file(dir: Seq<char>, name: Seq<char>, ext: Seq<char>) -> Seq<char> {
    join(dir, name + "."@ + ext)
}

fn backing_path(dir: &str, name: &str, ext: &str) -> (r: String)
    ensures
        r@ == backing_file(dir@, name@, ext@),
{
    let file = text(name).concat(".").concat(ext);
    joined_path(dir, file.as_str())
}

pub fn trunk_path(dir: &str, name: &str) -> (r: String)
    ensures
        r@ == backing_file(dir@, name@, "trunk"@),
{
    backing_path(dir, name, TRUNK_EXT)
}

pub fn rings_path(dir: &str, name: &str) -> (r: String)
    ensures
        r@ == backing_file(dir@, name@, "rings"@),
{
    backing_path(dir, name, RINGS_EXT)
}

pub fn grain_path(dir: &str, name: &str) -> (r: String)
    ensures
        r@ == backing_file(dir@, name@, "grain"@),
{
    backing_path(dir, name, GRAIN_EXT)
}

pub fn bark_path(dir: &str, name: &str) -> (r: String)
    ensures
        r@ == backing_file(dir@, name@, "bark"@),
{
    backing_path(dir, name, BARK_EXT)
}

pub fn seq_path(dir: &str, name: &str) -> (r: String)
    ensures
        r@ == backing_file(dir@, name@, "seq"@),
{
    backing_path(dir, name, SEQ_EXT)
}

pub fn trim_path(dir: &str, name: &str) -> (r: String)
    ensures
        r@ == backing_file(dir@, name@, "trim"@),
{
    backing_path(dir, name, TRIM_EXT)
}

pub fn sap_path(dir: &str, name: &str) -> (r: String)
    ensures
        r@ == backing_file(dir@, name@, "sap"@),
{
    backing_path(dir, name, SAP_EXT)
}

pub fn sap_seal_path(dir: &str, name: &str) -> (r: String)
    ensures
        r@ == backing_file(dir@, name@, "sap.seal"@),
{
    backing_path(dir, name, SAP_SEAL_EXT)
}

// ------------------------------------------------------------------ records

/// One chunk: a contiguous run of appended bytes, compressed as a single zstd
/// frame, together with the wall-clock window in which those bytes were
/// written. All fields little-endian u64 on disk.
#[derive(Debug, Clone, Copy, PartialEq, Eq, Structural)]
pub struct ChunkRecord {
    /// Offset of this chunk in the uncompressed (logical) file.
    pub uncomp_start: u64,
    /// Uncompressed length of this chunk.
    pub uncomp_len: u64,
    /// Offset of the zstd frame in the .trunk file.
    pub comp_start: u64,
    /// Length of the zstd frame.
    pub comp_len: u64,
    /// Wall clock (unix ms) of the first write buffered into this chunk.
    pub first_write_ms: u64,
    /// Wall clock (unix ms) of the last write buffered into this chunk.
    pub last_write_ms: u64,
    /// This chunk's number in its own store: assigned at append, dense, never
    /// reused, and monotone by construction rather than by trusting a clock,
    /// which is what makes it the only axis a cursor can safely hold.
    /// Preserved verbatim by a head-drop, and therefore not the record's
    /// index.
    pub seq: u64,
}

/// A record on disk.
pub open spec fn record_bytes(r: ChunkRecord) -> Seq<u8> {
    le(r.uncomp_start as nat, 8) + le(r.uncomp_len as nat, 8) + le(r.comp_start as nat, 8) + le(
        r.comp_len as nat,
        8,
    ) + le(r.first_write_ms as nat, 8) + le(r.last_write_ms as nat, 8) + le(r.seq as nat, 8)
}

/// The record at `at`, numbered `seq`.
pub open spec fn record_v1_at(b: Seq<u8>, at: int, seq: u64) -> ChunkRecord {
    ChunkRecord {
        uncomp_start: le_at(b, at, 8) as u64,
        uncomp_len: le_at(b, at + 8, 8) as u64,
        comp_start: le_at(b, at + 16, 8) as u64,
        comp_len: le_at(b, at + 24, 8) as u64,
        first_write_ms: le_at(b, at + 32, 8) as u64,
        last_write_ms: le_at(b, at + 40, 8) as u64,
        seq,
    }
}

/// The record at `at`.
pub open spec fn record_at(b: Seq<u8>, at: int) -> ChunkRecord {
    record_v1_at(b, at, le_at(b, at + 48, 8) as u64)
}

impl ChunkRecord {
    pub fn uncomp_end(&self) -> (end: u64)
        requires
            self.uncomp_start + self.uncomp_len <= u64::MAX,
        ensures
            end == self.uncomp_start + self.uncomp_len,
    {
        self.uncomp_start + self.uncomp_len
    }

    pub fn comp_end(&self) -> (end: u64)
        requires
            self.comp_start + self.comp_len <= u64::MAX,
        ensures
            end == self.comp_start + self.comp_len,
    {
        self.comp_start + self.comp_len
    }

    pub fn to_bytes(self) -> (b: [u8; RECORD_LEN])
        ensures
            b@ == record_bytes(self),
    {
        let mut out: Vec<u8> = Vec::new();
        put_u64(&mut out, self.uncomp_start);
        put_u64(&mut out, self.uncomp_len);
        put_u64(&mut out, self.comp_start);
        put_u64(&mut out, self.comp_len);
        put_u64(&mut out, self.first_write_ms);
        put_u64(&mut out, self.last_write_ms);
        put_u64(&mut out, self.seq);
        assert(out@ =~= record_bytes(self));
        proof {
            lemma_record_len(self);
        }
        let mut b: [u8; RECORD_LEN] = [0; RECORD_LEN];
        let mut i: usize = 0;
        while i < RECORD_LEN
            invariant
                i <= RECORD_LEN,
                out@.len() == RECORD_LEN,
                forall|j: int| 0 <= j < i ==> #[trigger] b@[j] == out@[j],
            decreases RECORD_LEN - i,
        {
            b[i] = out[i];
            i = i + 1;
        }
        assert(b@ =~= out@);
        b
    }

    /// The record in the first `RECORD_LEN` bytes.
    pub fn from_bytes(b: &[u8]) -> (r: ChunkRecord)
        requires
            b@.len() >= RECORD_LEN,
        ensures
            r == record_at(b@, 0),
    {
        ChunkRecord::from_bytes_v1(b, get_u64(b, 48))
    }

    /// A record of the old layout, which carries no number. `seq` is supplied
    /// by the caller: the oldest surviving record is 0, which is a definition
    /// of where this store's numbering begins, not an attempt to recover how
    /// many chunks it dropped before anyone was counting.
    pub fn from_bytes_v1(b: &[u8], seq: u64) -> (r: ChunkRecord)
        requires
            b@.len() >= RECORD_LEN_V1,
        ensures
            r == record_v1_at(b@, 0, seq),
    {
        ChunkRecord {
            uncomp_start: get_u64(b, 0),
            uncomp_len: get_u64(b, 8),
            comp_start: get_u64(b, 16),
            comp_len: get_u64(b, 24),
            first_write_ms: get_u64(b, 32),
            last_write_ms: get_u64(b, 40),
            seq,
        }
    }
}

pub proof fn lemma_record_len(r: ChunkRecord)
    ensures
        record_bytes(r).len() == RECORD_LEN,
{
    lemma_le_len(r.uncomp_start as nat, 8);
    lemma_le_len(r.uncomp_len as nat, 8);
    lemma_le_len(r.comp_start as nat, 8);
    lemma_le_len(r.comp_len as nat, 8);
    lemma_le_len(r.first_write_ms as nat, 8);
    lemma_le_len(r.last_write_ms as nat, 8);
    lemma_le_len(r.seq as nat, 8);
}

/// A record round-trips, its number included, and the first 48 of its bytes
/// are the old layout's record: the same one, but for the number.
pub proof fn a_record_round_trips(r: ChunkRecord, seq: u64)
    ensures
        record_at(record_bytes(r), 0) == r,
        record_v1_at(record_bytes(r).take(RECORD_LEN_V1 as int), 0, seq) == (ChunkRecord {
            seq,
            ..r
        }),
{
    let b = record_bytes(r);
    lemma_record_len(r);
    lemma_pow256();
    lemma_le_round_trip(r.uncomp_start as nat, 8);
    lemma_le_round_trip(r.uncomp_len as nat, 8);
    lemma_le_round_trip(r.comp_start as nat, 8);
    lemma_le_round_trip(r.comp_len as nat, 8);
    lemma_le_round_trip(r.first_write_ms as nat, 8);
    lemma_le_round_trip(r.last_write_ms as nat, 8);
    lemma_le_round_trip(r.seq as nat, 8);
    assert(b.subrange(0, 8) =~= le(r.uncomp_start as nat, 8));
    assert(b.subrange(8, 16) =~= le(r.uncomp_len as nat, 8));
    assert(b.subrange(16, 24) =~= le(r.comp_start as nat, 8));
    assert(b.subrange(24, 32) =~= le(r.comp_len as nat, 8));
    assert(b.subrange(32, 40) =~= le(r.first_write_ms as nat, 8));
    assert(b.subrange(40, 48) =~= le(r.last_write_ms as nat, 8));
    assert(b.subrange(48, 56) =~= le(r.seq as nat, 8));
    let c = b.take(48);
    assert(c.subrange(0, 8) =~= b.subrange(0, 8));
    assert(c.subrange(8, 16) =~= b.subrange(8, 16));
    assert(c.subrange(16, 24) =~= b.subrange(16, 24));
    assert(c.subrange(24, 32) =~= b.subrange(24, 32));
    assert(c.subrange(32, 40) =~= b.subrange(32, 40));
    assert(c.subrange(40, 48) =~= b.subrange(40, 48));
}

// ------------------------------------------------------------------- header

/// What has left this store over its whole life: an optional header field, so
/// it uses the reserved space rather than a version bump.
///
/// Not derivable after the fact, which is why it is recorded: a head-drop
/// rebases the survivors' offsets, so the bytes that went leave no trace in
/// the index. Bytes only: the chunk count is the oldest surviving number.
/// Lengths, never offsets.
#[derive(Clone, Copy, Debug, PartialEq, Eq, Structural)]
pub struct Dropped {
    pub uncomp_bytes: u64,
    pub comp_bytes: u64,
}

/// Nothing dropped.
pub open spec fn nothing_dropped() -> Dropped {
    Dropped { uncomp_bytes: 0, comp_bytes: 0 }
}

impl Default for Dropped {
    fn default() -> (d: Dropped)
        ensures
            d == nothing_dropped(),
    {
        Dropped { uncomp_bytes: 0, comp_bytes: 0 }
    }
}

/// The identity field of a header: all zero where the store has none.
pub open spec fn id_field(id: Option<Seq<u8>>) -> Seq<u8> {
    match id {
        Some(b) => b,
        None => Seq::new(16, |i: int| 0u8),
    }
}

/// The header: magic, its own length, no incompat flags, the chunk-number
/// high-water mark, what has been dropped, and the store id.
pub open spec fn header_bytes(next_seq: u64, dropped: Dropped, id: Option<Seq<u8>>) -> Seq<u8> {
    RINGS_MAGIC@ + le(RINGS_HEADER_LEN as nat, 8) + le(0, 8) + le(next_seq as nat, 8) + le(
        dropped.uncomp_bytes as nat,
        8,
    ) + le(dropped.comp_bytes as nat, 8) + id_field(id)
}

pub open spec fn id_view(id: Option<[u8; 16]>) -> Option<Seq<u8>> {
    match id {
        Some(b) => Some(b@),
        None => None,
    }
}

/// The header of an index: 64 bytes, every field a little-endian u64 after the
/// magic, and deliberately larger than it needs to be.
///
/// ```text
///  0..8   magic "RING0002"
///  8..16  header_len      where record 0 starts
/// 16..24  incompat_flags  refuse on a bit you do not know
/// 24..32  next_seq        the chunk-number high-water mark
/// 32..40  dropped_uncomp  uncompressed bytes that have left the store
/// 40..48  dropped_comp    the same, compressed
/// 48..64  store id        the 16 raw bytes of the store's UUID, or all-zero
///                         where it has none
/// ```
///
/// `next_seq` exists for one case: retention can drop every chunk, and a store
/// whose record set is empty would otherwise restart numbering at 0 and hand a
/// fresh chunk a number some cursor already considers consumed.
pub fn rings_header(next_seq: u64, dropped: Dropped, id: Option<[u8; 16]>) -> (h: [u8; 64])
    ensures
        h@ == header_bytes(next_seq, dropped, id_view(id)),
{
    let mut out: Vec<u8> = Vec::new();
    out.extend_from_slice(RINGS_MAGIC.as_slice());
    put_u64(&mut out, RINGS_HEADER_LEN);
    put_u64(&mut out, 0);
    put_u64(&mut out, next_seq);
    put_u64(&mut out, dropped.uncomp_bytes);
    put_u64(&mut out, dropped.comp_bytes);
    let field: [u8; 16] = match id {
        Some(b) => b,
        None => [0; 16],
    };
    assert(field@ =~= id_field(id_view(id)));
    out.extend_from_slice(field.as_slice());
    assert(out@ =~= header_bytes(next_seq, dropped, id_view(id)));
    proof {
        lemma_header_fields(next_seq, dropped, id_view(id));
    }
    let mut h: [u8; 64] = [0; 64];
    let mut i: usize = 0;
    while i < 64
        invariant
            i <= 64,
            out@.len() == 64,
            forall|j: int| 0 <= j < i ==> #[trigger] h@[j] == out@[j],
        decreases 64 - i,
    {
        h[i] = out[i];
        i = i + 1;
    }
    assert(h@ =~= out@);
    h
}

/// The fields of a header, read back.
pub proof fn lemma_header_fields(next_seq: u64, dropped: Dropped, id: Option<Seq<u8>>)
    requires
        id is Some ==> id->Some_0.len() == 16,
    ensures
        ({
            let h = header_bytes(next_seq, dropped, id);
            &&& h.len() == RINGS_HEADER_LEN
            &&& h.subrange(0, 8) == RINGS_MAGIC@
            &&& le_at(h, 8, 8) == RINGS_HEADER_LEN
            &&& le_at(h, 16, 8) == 0
            &&& le_at(h, 24, 8) == next_seq
            &&& le_at(h, 32, 8) == dropped.uncomp_bytes
            &&& le_at(h, 40, 8) == dropped.comp_bytes
            &&& h.subrange(48, 64) == id_field(id)
        }),
{
    let h = header_bytes(next_seq, dropped, id);
    lemma_pow256();
    lemma_le_round_trip(64, 8);
    lemma_le_round_trip(0, 8);
    lemma_le_round_trip(next_seq as nat, 8);
    lemma_le_round_trip(dropped.uncomp_bytes as nat, 8);
    lemma_le_round_trip(dropped.comp_bytes as nat, 8);
    assert(h.subrange(0, 8) =~= RINGS_MAGIC@);
    assert(h.subrange(8, 16) =~= le(64, 8));
    assert(h.subrange(16, 24) =~= le(0, 8));
    assert(h.subrange(24, 32) =~= le(next_seq as nat, 8));
    assert(h.subrange(32, 40) =~= le(dropped.uncomp_bytes as nat, 8));
    assert(h.subrange(40, 48) =~= le(dropped.comp_bytes as nat, 8));
    assert(h.subrange(48, 64) =~= id_field(id));
}

/// Whether a buffer starts with the current magic.
pub open spec fn has_magic(b: Seq<u8>, magic: Seq<u8>) -> bool {
    b.len() >= 8 && b.subrange(0, 8) == magic
}

fn starts_with_magic(b: &[u8], magic: &[u8; 8]) -> (r: bool)
    ensures
        r == has_magic(b@, magic@),
{
    if b.len() < 8 {
        return false;
    }
    let mut i: usize = 0;
    while i < 8
        invariant
            i <= 8,
            b@.len() >= 8,
            forall|j: int| 0 <= j < i ==> b@[j] == magic@[j],
        decreases 8 - i,
    {
        if b[i] != magic[i] {
            assert(b@.subrange(0, 8)[i as int] != magic@[i as int]);
            return false;
        }
        i = i + 1;
    }
    assert(b@.subrange(0, 8) =~= magic@);
    true
}

/// Whether a header carries everything below `end`: the bytes are there, and
/// the length that the header declares reaches that far.
pub open spec fn header_reaches(b: Seq<u8>, end: int) -> bool {
    b.len() >= end && has_magic(b, RINGS_MAGIC@) && le_at(b, 8, 8) >= end
}

/// The store id that a header carries.
pub open spec fn store_id_of(b: Seq<u8>) -> Option<Seq<u8>> {
    let id = b.subrange(48, 64);
    if header_reaches(b, 64) && id != Seq::new(16, |i: int| 0u8) {
        Some(id)
    } else {
        None
    }
}

/// The store id a `.rings` header carries, or `None` where it carries none: an
/// old header, a header too short to reach the field or that declares itself
/// so, or the all-zero that means "not set".
pub fn header_store_id(buf: &[u8]) -> (r: Option<[u8; 16]>)
    ensures
        id_view(r) == store_id_of(buf@),
{
    if buf.len() < STORE_ID_OFF + 16 || !starts_with_magic(buf, &RINGS_MAGIC) {
        return None;
    }
    // A header may declare itself shorter than the field it would contain.
    if get_u64(buf, 8) < 64 {
        return None;
    }
    let mut id: [u8; 16] = [0; 16];
    let mut set: bool = false;
    let mut i: usize = 0;
    while i < 16
        invariant
            i <= 16,
            buf@.len() >= 64,
            forall|j: int| 0 <= j < i ==> #[trigger] id@[j] == buf@[48 + j],
            set <==> exists|j: int| 0 <= j < i && #[trigger] id@[j] != 0,
        decreases 16 - i,
    {
        let ghost before = id@;
        let x: u8 = buf[STORE_ID_OFF + i];
        id[i] = x;
        assert forall|j: int| 0 <= j < i implies #[trigger] id@[j] == before[j] by {}
        if x != 0 {
            assert(id@[i as int] != 0);
            set = true;
        } else if set {
            proof {
                let j = choose|j: int| 0 <= j < i && #[trigger] before[j] != 0;
                assert(id@[j] != 0);
            }
        }
        i = i + 1;
    }
    assert(id@ =~= buf@.subrange(48, 64));
    if set {
        let ghost j = choose|j: int| 0 <= j < 16 && #[trigger] id@[j] != 0;
        assert(buf@.subrange(48, 64)[j] != 0);
        Some(id)
    } else {
        assert(buf@.subrange(48, 64) =~= Seq::new(16, |i: int| 0u8));
        None
    }
}

/// The drop counters that a header carries.
pub open spec fn dropped_of(b: Seq<u8>) -> Dropped {
    if header_reaches(b, 48) {
        Dropped { uncomp_bytes: le_at(b, 32, 8) as u64, comp_bytes: le_at(b, 40, 8) as u64 }
    } else {
        nothing_dropped()
    }
}

/// The header's drop counters, or all-zero when this file is too old to carry
/// them. Gated on the declared header length: that is what it is for.
pub fn header_dropped(buf: &[u8]) -> (d: Dropped)
    ensures
        d == dropped_of(buf@),
{
    if buf.len() < 48 || !starts_with_magic(buf, &RINGS_MAGIC) {
        return Dropped::default();
    }
    if get_u64(buf, 8) < 48 {
        return Dropped::default();
    }
    Dropped { uncomp_bytes: get_u64(buf, 32), comp_bytes: get_u64(buf, 40) }
}

/// The high-water mark that a header carries.
pub open spec fn next_seq_of(b: Seq<u8>) -> u64 {
    if b.len() >= RINGS_HEADER_MIN && has_magic(b, RINGS_MAGIC@) {
        le_at(b, 24, 8) as u64
    } else {
        0
    }
}

/// The high-water mark a header carries. An old header has none, and a
/// truncated one reads as 0: both mean "trust the records".
pub fn header_next_seq(buf: &[u8]) -> (n: u64)
    ensures
        n == next_seq_of(buf@),
{
    if buf.len() < 32 || !starts_with_magic(buf, &RINGS_MAGIC) {
        return 0;
    }
    get_u64(buf, 24)
}

/// A header says what it was written with, whatever follows it: the number,
/// the counters, and the identity, an all-zero one reading as none.
pub proof fn the_header_round_trips(
    next_seq: u64,
    dropped: Dropped,
    id: Option<Seq<u8>>,
    rest: Seq<u8>,
)
    requires
        id is Some ==> id->Some_0.len() == 16,
    ensures
        next_seq_of(header_bytes(next_seq, dropped, id) + rest) == next_seq,
        dropped_of(header_bytes(next_seq, dropped, id) + rest) == dropped,
        store_id_of(header_bytes(next_seq, dropped, id) + rest) == (if id_field(id) == Seq::new(
            16,
            |i: int| 0u8,
        ) {
            None
        } else {
            id
        }),
{
    let h = header_bytes(next_seq, dropped, id);
    let b = h + rest;
    lemma_header_fields(next_seq, dropped, id);
    lemma_header_in_file(h, rest);
}

proof fn lemma_header_in_file(h: Seq<u8>, rest: Seq<u8>)
    requires
        h.len() == 64,
    ensures
        (h + rest).subrange(0, 8) == h.subrange(0, 8),
        le_at(h + rest, 8, 8) == le_at(h, 8, 8),
        le_at(h + rest, 16, 8) == le_at(h, 16, 8),
        le_at(h + rest, 24, 8) == le_at(h, 24, 8),
        le_at(h + rest, 32, 8) == le_at(h, 32, 8),
        le_at(h + rest, 40, 8) == le_at(h, 40, 8),
        (h + rest).subrange(48, 64) == h.subrange(48, 64),
{
    let b = h + rest;
    assert(b.subrange(0, 8) =~= h.subrange(0, 8));
    assert(b.subrange(8, 16) =~= h.subrange(8, 16));
    assert(b.subrange(16, 24) =~= h.subrange(16, 24));
    assert(b.subrange(24, 32) =~= h.subrange(24, 32));
    assert(b.subrange(32, 40) =~= h.subrange(32, 40));
    assert(b.subrange(40, 48) =~= h.subrange(40, 48));
    assert(b.subrange(48, 64) =~= h.subrange(48, 64));
}

/// A hyphenated UUID as its 16 raw bytes. `None` for anything that is not one:
/// an id is minted by us, so a manifest holding something else is a fact to
/// report, never something to reshape into 16 bytes.
pub fn uuid_bytes(s: &str) -> (r: Option<[u8; 16]>)
    ensures
        id_view(r) == uuid_of(s@),
{
    parse_uuid(s)
}

/// The hyphenated form of 16 raw bytes: the spelling manifests hold.
pub fn uuid_text(b: &[u8; 16]) -> (r: String)
    ensures
        r@ == uuid_chars(b@),
{
    uuid_spelled(b)
}

// ------------------------------------------------------------------ parsing

/// Why bytes are not an index this build can read.
#[derive(Debug, Clone, Copy, PartialEq, Eq)]
pub enum IndexError {
    BadMagic,
    /// The header length that the file declares, which cannot be.
    ImpossibleHeader(u64),
    /// The incompat flags that the file sets.
    Unsupported(u64),
}

impl IndexError {
    /// What an index error says.
    pub open spec fn said(self) -> Seq<char> {
        match self {
            IndexError::BadMagic => "not a timberfs index (bad magic)"@,
            IndexError::ImpossibleHeader(n) => "timberfs index declares a "@ + decimal(n as nat)
                + "-byte header, which is impossible"@,
            IndexError::Unsupported(bits) =>
                "timberfs index requires unsupported features (incompat 0x"@ + hex_padded(
                bits as nat,
                16,
            ) + ") — it was written by a newer timberfs"@,
        }
    }

    /// What an index error says.
    pub fn message(&self) -> (r: String)
        ensures
            r@ == self.said(),
    {
        match self {
            IndexError::BadMagic => text("not a timberfs index (bad magic)"),
            IndexError::ImpossibleHeader(n) => text("timberfs index declares a ").concat(
                number_text(*n).as_str(),
            ).concat("-byte header, which is impossible"),
            IndexError::Unsupported(bits) => text(
                "timberfs index requires unsupported features (incompat 0x",
            ).concat(hex_padded_text(*bits, 16).as_str()).concat(
                ") — it was written by a newer timberfs",
            ),
        }
    }
}

/// Where the records of an index start and how long each is.
pub open spec fn layout_of(b: Seq<u8>) -> Result<(RingsVersion, int, int), IndexError> {
    if has_magic(b, RINGS_MAGIC@) {
        let declared = le_at(b, 8, 8);
        let incompat = le_at(b, 16, 8);
        if b.len() < RINGS_HEADER_MIN {
            Err(IndexError::BadMagic)
        } else if declared < RINGS_HEADER_MIN || declared > b.len() {
            Err(IndexError::ImpossibleHeader(declared as u64))
        } else if incompat != 0 {
            Err(IndexError::Unsupported(incompat as u64))
        } else {
            Ok((RingsVersion::V2, declared as int, RECORD_LEN as int))
        }
    } else if has_magic(b, RINGS_MAGIC_V1@) {
        Ok((RingsVersion::V1, RINGS_HEADER_LEN_V1 as int, RECORD_LEN_V1 as int))
    } else {
        Err(IndexError::BadMagic)
    }
}

/// The records of an index, in order: as many whole ones as there are, those
/// of the old layout numbered from 0.
pub open spec fn records_of(
    b: Seq<u8>,
    version: RingsVersion,
    header: int,
    stride: int,
) -> Seq<ChunkRecord> {
    Seq::new(
        ((b.len() - header) / stride) as nat,
        |i: int|
            match version {
                RingsVersion::V2 => record_at(b, header + i * stride),
                RingsVersion::V1 => record_v1_at(b, header + i * stride, i as u64),
            },
    )
}

/// What an index says: its records and its layout.
pub open spec fn index_of(b: Seq<u8>) -> Result<(Seq<ChunkRecord>, RingsVersion), IndexError> {
    match layout_of(b) {
        Ok((version, header, stride)) => Ok((records_of(b, version, header, stride), version)),
        Err(e) => Err(e),
    }
}

/// Parse index content wherever it came from (a file, a bundle member). A
/// trailing partial record, of a crash mid-append, is ignored.
pub fn parse_index_bytes(buf: &[u8]) -> (r: Result<Vec<ChunkRecord>, IndexError>)
    ensures
        match r {
            Ok(records) => index_of(buf@) is Ok && index_of(buf@)->Ok_0.0 == records@,
            Err(e) => index_of(buf@) == Err::<(Seq<ChunkRecord>, RingsVersion), IndexError>(e),
        },
{
    match parse_index_versioned(buf) {
        Ok((records, _)) => Ok(records),
        Err(e) => Err(e),
    }
}

fn read_layout(buf: &[u8]) -> (r: Result<(RingsVersion, usize, usize), IndexError>)
    ensures
        match r {
            Ok((version, header, stride)) => layout_of(buf@) == Ok::<_, IndexError>(
                (version, header as int, stride as int),
            ) && header <= buf@.len() && (stride == RECORD_LEN <==> version == RingsVersion::V2)
                && (stride == RECORD_LEN_V1 <==> version == RingsVersion::V1),
            Err(e) => layout_of(buf@) == Err::<(RingsVersion, int, int), IndexError>(e),
        },
{
    if starts_with_magic(buf, &RINGS_MAGIC) {
        if buf.len() < 32 {
            return Err(IndexError::BadMagic);
        }
        // The file's header length, not ours: a longer header from a later
        // version must shift record offsets for this reader too.
        let declared: u64 = get_u64(buf, 8);
        if declared < RINGS_HEADER_MIN || declared > buf.len() as u64 {
            return Err(IndexError::ImpossibleHeader(declared));
        }
        // A bit set here changes how the records must be read, so an older
        // reader has to stop rather than answer from a layout it does not
        // know.
        let incompat: u64 = get_u64(buf, 16);
        if incompat != 0 {
            return Err(IndexError::Unsupported(incompat));
        }
        Ok((RingsVersion::V2, declared as usize, RECORD_LEN))
    } else if starts_with_magic(buf, &RINGS_MAGIC_V1) {
        Ok((RingsVersion::V1, 8, RECORD_LEN_V1))
    } else {
        Err(IndexError::BadMagic)
    }
}

proof fn lemma_record_moves(b: Seq<u8>, at: int, seq: u64)
    requires
        0 <= at,
        at + 48 <= b.len(),
    ensures
        record_v1_at(b.subrange(at, at + 48), 0, seq) == record_v1_at(b, at, seq),
        at + 56 <= b.len() ==> record_at(b.subrange(at, at + 56), 0) == record_at(b, at),
{
    let c = b.subrange(at, at + 48);
    assert(c.subrange(0, 8) =~= b.subrange(at, at + 8));
    assert(c.subrange(8, 16) =~= b.subrange(at + 8, at + 16));
    assert(c.subrange(16, 24) =~= b.subrange(at + 16, at + 24));
    assert(c.subrange(24, 32) =~= b.subrange(at + 24, at + 32));
    assert(c.subrange(32, 40) =~= b.subrange(at + 32, at + 40));
    assert(c.subrange(40, 48) =~= b.subrange(at + 40, at + 48));
    if at + 56 <= b.len() {
        let d = b.subrange(at, at + 56);
        assert(d.subrange(0, 8) =~= b.subrange(at, at + 8));
        assert(d.subrange(8, 16) =~= b.subrange(at + 8, at + 16));
        assert(d.subrange(16, 24) =~= b.subrange(at + 16, at + 24));
        assert(d.subrange(24, 32) =~= b.subrange(at + 24, at + 32));
        assert(d.subrange(32, 40) =~= b.subrange(at + 32, at + 40));
        assert(d.subrange(40, 48) =~= b.subrange(at + 40, at + 48));
        assert(d.subrange(48, 56) =~= b.subrange(at + 48, at + 56));
    }
}

/// As `parse_index_bytes`, plus which layout it found: what a writer needs,
/// since it must migrate an old file before appending rather than mixing two
/// record strides in one file.
pub fn parse_index_versioned(buf: &[u8]) -> (r: Result<
    (Vec<ChunkRecord>, RingsVersion),
    IndexError,
>)
    ensures
        match r {
            Ok((records, version)) => index_of(buf@) == Ok::<_, IndexError>((records@, version)),
            Err(e) => index_of(buf@) == Err::<(Seq<ChunkRecord>, RingsVersion), IndexError>(e),
        },
{
    let (version, header, stride) = match read_layout(buf) {
        Ok(found) => found,
        Err(e) => return Err(e),
    };
    let size: usize = buf.len();
    let n: usize = (size - header) / stride;
    let ghost want = records_of(buf@, version, header as int, stride as int);
    assert(want.len() == n);
    let mut out: Vec<ChunkRecord> = Vec::with_capacity(n);
    let mut i: usize = 0;
    while i < n
        invariant
            0 <= i <= n,
            size == buf@.len(),
            header <= size,
            stride == RECORD_LEN || stride == RECORD_LEN_V1,
            stride == RECORD_LEN <==> version == RingsVersion::V2,
            stride == RECORD_LEN_V1 <==> version == RingsVersion::V1,
            n == (size - header) / stride as int,
            want == records_of(buf@, version, header as int, stride as int),
            want.len() == n,
            out@ == want.take(i as int),
        decreases n - i,
    {
        assert(i * stride + stride <= n * stride) by (nonlinear_arith)
            requires
                i + 1 <= n,
                stride >= 0,
        ;
        assert(n * stride <= size - header) by (nonlinear_arith)
            requires
                n == (size - header) / stride as int,
                size - header >= 0,
                stride > 0,
        ;
        let off: usize = header + i * stride;
        let b: &[u8] = slice_subrange(buf, off, off + stride);
        proof {
            lemma_record_moves(buf@, off as int, i as u64);
        }
        let record = match version {
            RingsVersion::V2 => ChunkRecord::from_bytes(b),
            RingsVersion::V1 => ChunkRecord::from_bytes_v1(b, i as u64),
        };
        assert(record == want[i as int]);
        out.push(record);
        i = i + 1;
        assert(out@ =~= want.take(i as int));
    }
    assert(out@ =~= want);
    Ok((out, version))
}

/// Records on disk, one after another.
pub open spec fn all_record_bytes(records: Seq<ChunkRecord>) -> Seq<u8>
    decreases records.len(),
{
    if records.len() == 0 {
        Seq::empty()
    } else {
        all_record_bytes(records.drop_last()) + record_bytes(records.last())
    }
}

proof fn lemma_all_records(records: Seq<ChunkRecord>)
    ensures
        all_record_bytes(records).len() == 56 * records.len(),
        forall|i: int|
            0 <= i < records.len() ==> #[trigger] all_record_bytes(records).subrange(
                56 * i,
                56 * i + 56,
            ) == record_bytes(records[i]),
    decreases records.len(),
{
    if records.len() > 0 {
        let init = records.drop_last();
        lemma_all_records(init);
        lemma_record_len(records.last());
        let all = all_record_bytes(records);
        let a = all_record_bytes(init);
        assert forall|i: int| 0 <= i < records.len() implies #[trigger] all.subrange(
            56 * i,
            56 * i + 56,
        ) == record_bytes(records[i]) by {
            if i < init.len() {
                assert(a.subrange(56 * i, 56 * i + 56) == record_bytes(init[i]));
                assert(all.subrange(56 * i, 56 * i + 56) =~= a.subrange(56 * i, 56 * i + 56));
            } else {
                assert(all.subrange(56 * i, 56 * i + 56) =~= record_bytes(records.last()));
            }
        }
    }
}

/// An index reads back as the records that were appended to it, wherever its
/// header says that they start: a longer header of a later version shifts
/// them and loses none, and the partial record of a crash mid-append is
/// ignored.
pub proof fn an_index_reads_back(head: Seq<u8>, records: Seq<ChunkRecord>, tail: Seq<u8>)
    requires
        head.len() >= RINGS_HEADER_MIN,
        has_magic(head, RINGS_MAGIC@),
        le_at(head, 8, 8) == head.len(),
        le_at(head, 16, 8) == 0,
        tail.len() < RECORD_LEN,
    ensures
        index_of(head + all_record_bytes(records) + tail) == Ok::<_, IndexError>(
            (records, RingsVersion::V2),
        ),
{
    let all = all_record_bytes(records);
    let b = head + all + tail;
    let h = head.len() as int;
    lemma_all_records(records);
    assert(b.subrange(0, 8) =~= head.subrange(0, 8));
    assert(b.subrange(8, 16) =~= head.subrange(8, 16));
    assert(b.subrange(16, 24) =~= head.subrange(16, 24));
    let got = records_of(b, RingsVersion::V2, h, 56);
    assert((b.len() - h) / 56 == records.len());
    assert forall|i: int| 0 <= i < records.len() implies #[trigger] got[i] == records[i] by {
        let at = h + i * 56;
        assert(all.subrange(56 * i, 56 * i + 56) == record_bytes(records[i]));
        assert(b.subrange(at, at + 56) =~= all.subrange(56 * i, 56 * i + 56));
        lemma_record_moves(b, at, 0);
        a_record_round_trips(records[i], 0);
    }
    assert(got =~= records);
}

} // verus!
