//! Where every field stands in the files and in the frames.

use crate::bytes::{le, le_at, lemma_le_len};
use crate::format::{
    backing_file, dropped_of, has_magic, header_bytes, id_field, index_of, lemma_header_fields,
    next_seq_of, record_bytes, record_v1_at, store_id_of, ChunkRecord, Dropped, IndexError,
    RINGS_MAGIC, RINGS_MAGIC_V1, RingsVersion,
};
use crate::frame::{
    bodies_len, chunk_of, conflict_of, decoded, decoded_hello, encoded, encoded_hello, len32,
    mode_wire, payload_frame, payload_of, run_bytes, run_list, runs_at, sidecar_bodies,
    sidecar_table, table_at, table_bytes, tag_of, wire_kind_of, EntryModel, FrameError, FrameModel,
    FramedModel, Hello, Run, SidecarModel,
};
use vstd::prelude::*;
use vstd::utf8::encode_utf8;

verus! {

/// A record is seven numbers of eight bytes each, in this order: where the
/// chunk starts in the log and how long it is there, where it starts in the
/// file and how long it is there, when it was first and last written, and its
/// number.
pub proof fn a_record_is_laid_out(r: ChunkRecord)
    ensures
        record_bytes(r).len() == 56,
        record_bytes(r).subrange(0, 8) == le(r.uncomp_start as nat, 8),
        record_bytes(r).subrange(8, 16) == le(r.uncomp_len as nat, 8),
        record_bytes(r).subrange(16, 24) == le(r.comp_start as nat, 8),
        record_bytes(r).subrange(24, 32) == le(r.comp_len as nat, 8),
        record_bytes(r).subrange(32, 40) == le(r.first_write_ms as nat, 8),
        record_bytes(r).subrange(40, 48) == le(r.last_write_ms as nat, 8),
        record_bytes(r).subrange(48, 56) == le(r.seq as nat, 8),
{
    let b = record_bytes(r);
    lemma_le_len(r.uncomp_start as nat, 8);
    lemma_le_len(r.uncomp_len as nat, 8);
    lemma_le_len(r.comp_start as nat, 8);
    lemma_le_len(r.comp_len as nat, 8);
    lemma_le_len(r.first_write_ms as nat, 8);
    lemma_le_len(r.last_write_ms as nat, 8);
    lemma_le_len(r.seq as nat, 8);
    assert(b.subrange(0, 8) =~= le(r.uncomp_start as nat, 8));
    assert(b.subrange(8, 16) =~= le(r.uncomp_len as nat, 8));
    assert(b.subrange(16, 24) =~= le(r.comp_start as nat, 8));
    assert(b.subrange(24, 32) =~= le(r.comp_len as nat, 8));
    assert(b.subrange(32, 40) =~= le(r.first_write_ms as nat, 8));
    assert(b.subrange(40, 48) =~= le(r.last_write_ms as nat, 8));
    assert(b.subrange(48, 56) =~= le(r.seq as nat, 8));
}

/// A header is 64 bytes: what it is, how long it is, what a reader must know,
/// the next chunk's number, what was dropped as it was written and as it was
/// stored, and the store's identity.
pub proof fn a_header_is_laid_out(next_seq: u64, dropped: Dropped, id: Seq<u8>)
    requires
        id.len() == 16,
    ensures
        header_bytes(next_seq, dropped, Some(id)).len() == 64,
        header_bytes(next_seq, dropped, Some(id)).subrange(0, 8) == seq![
            0x52u8,
            0x49,
            0x4e,
            0x47,
            0x30,
            0x30,
            0x30,
            0x32,
        ],
        le_at(header_bytes(next_seq, dropped, Some(id)), 8, 8) == 64,
        le_at(header_bytes(next_seq, dropped, Some(id)), 16, 8) == 0,
        le_at(header_bytes(next_seq, dropped, Some(id)), 24, 8) == next_seq,
        le_at(header_bytes(next_seq, dropped, Some(id)), 32, 8) == dropped.uncomp_bytes,
        le_at(header_bytes(next_seq, dropped, Some(id)), 40, 8) == dropped.comp_bytes,
        header_bytes(next_seq, dropped, Some(id)).subrange(48, 64) == id,
        forall|i: int|
            48 <= i < 64 ==> #[trigger] header_bytes(next_seq, dropped, None)[i] == 0,
{
    lemma_header_fields(next_seq, dropped, Some(id));
    lemma_header_fields(next_seq, dropped, None);
    assert(RINGS_MAGIC@ =~= seq![0x52u8, 0x49, 0x4e, 0x47, 0x30, 0x30, 0x30, 0x32]);
    let h = header_bytes(next_seq, dropped, None);
    assert forall|i: int| 48 <= i < 64 implies #[trigger] h[i] == 0 by {
        assert(h.subrange(48, 64)[i - 48] == id_field(None)[i - 48]);
    }
}

/// An index is read by the layout that its first bytes name: of the older one,
/// records of 48 bytes behind eight, numbered as they stand; of the newer one,
/// records of 56 bytes behind a header as long as it says. A header that is
/// shorter than a header can be, or longer than the file, and one that asks for
/// more than a reader here can do, are refused, and so is anything else.
pub proof fn an_index_is_read_by_the_layout_it_names(b: Seq<u8>)
    ensures
        has_magic(b, RINGS_MAGIC_V1@) ==> {
            &&& index_of(b) is Ok
            &&& index_of(b)->Ok_0.1 is V1
            &&& index_of(b)->Ok_0.0.len() == (b.len() - 8) / 48
            &&& forall|i: int|
                0 <= i < index_of(b)->Ok_0.0.len() ==> #[trigger] index_of(b)->Ok_0.0[i]
                    == record_v1_at(b, 8 + i * 48, i as u64)
        },
        has_magic(b, RINGS_MAGIC@) && b.len() >= 32 ==> {
            let declared = le_at(b, 8, 8);
            let asked = le_at(b, 16, 8);
            &&& index_of(b) is Ok <==> 32 <= declared <= b.len() && asked == 0
            &&& index_of(b) is Ok ==> index_of(b)->Ok_0.1 is V2 && index_of(b)->Ok_0.0.len() == (
            b.len() - declared) / 56
            &&& !(32 <= declared <= b.len()) ==> index_of(b) == Err::<
                (Seq<ChunkRecord>, RingsVersion),
                IndexError,
            >(IndexError::ImpossibleHeader(declared as u64))
            &&& 32 <= declared <= b.len() && asked != 0 ==> index_of(b) == Err::<
                (Seq<ChunkRecord>, RingsVersion),
                IndexError,
            >(IndexError::Unsupported(asked as u64))
        },
        !has_magic(b, RINGS_MAGIC@) && !has_magic(b, RINGS_MAGIC_V1@) ==> index_of(b) == Err::<
            (Seq<ChunkRecord>, RingsVersion),
            IndexError,
        >(IndexError::BadMagic),
        b.len() < 8 ==> index_of(b) is Err,
{
    assert(RINGS_MAGIC@[7] != RINGS_MAGIC_V1@[7]);
}

/// A frame travels as its stream's number, its kind's, the length of its
/// payload and the payload. The kinds are numbered from one on.
pub proof fn a_frame_is_laid_out(f: FramedModel)
    requires
        payload_of(f.frame).len() < 0x1_0000_0000,
    ensures
        encoded(f).len() == 12 + payload_of(f.frame).len(),
        encoded(f).subrange(0, 4) == le(f.stream as nat, 4),
        encoded(f).subrange(4, 8) == le(kind_number(f.frame) as nat, 4),
        encoded(f).subrange(8, 12) == le(payload_of(f.frame).len(), 4),
        encoded(f).skip(12) == payload_of(f.frame),
{
    lemma_le_len(f.stream as nat, 4);
    lemma_le_len(wire_kind_of(f.frame) as nat, 4);
    lemma_le_len(payload_of(f.frame).len(), 4);
    assert(len32(payload_of(f.frame).len()) == payload_of(f.frame).len());
    assert(encoded(f).subrange(0, 4) =~= le(f.stream as nat, 4));
    assert(encoded(f).subrange(4, 8) =~= le(wire_kind_of(f.frame) as nat, 4));
    assert(encoded(f).subrange(8, 12) =~= le(payload_of(f.frame).len(), 4));
    assert(encoded(f).skip(12) =~= payload_of(f.frame));
}

/// The number that a kind travels under.
pub open spec fn kind_number(f: FrameModel) -> u32 {
    if f is StreamOpen {
        1
    } else if f is Chunk {
        2
    } else if f is Coverage {
        3
    } else if f is Accepted {
        4
    } else if f is Conflict {
        5
    } else {
        f->kind
    }
}

/// Two numbers of eight bytes travel for each run, its start before its end,
/// behind how many runs there are.
pub proof fn runs_are_laid_out(runs: Seq<Run>, i: int)
    requires
        0 <= i < runs.len() < 0x1_0000_0000,
    ensures
        run_list(runs).len() == 4 + 16 * runs.len(),
        run_list(runs).subrange(0, 4) == le(runs.len(), 4),
        run_list(runs).subrange(4 + 16 * i, 12 + 16 * i) == le(runs[i].start as nat, 8),
        run_list(runs).subrange(12 + 16 * i, 20 + 16 * i) == le(runs[i].end as nat, 8),
{
    lemma_le_len(runs.len(), 4);
    lemma_runs(runs, i);
    let b = run_list(runs);
    let r = run_bytes(runs);
    assert(b.subrange(0, 4) =~= le(runs.len(), 4));
    assert(b.subrange(4 + 16 * i, 12 + 16 * i) =~= r.subrange(16 * i, 16 * i + 8));
    assert(b.subrange(12 + 16 * i, 20 + 16 * i) =~= r.subrange(16 * i + 8, 16 * i + 16));
}

proof fn lemma_runs(runs: Seq<Run>, i: int)
    requires
        0 <= i < runs.len(),
    ensures
        run_bytes(runs).len() == 16 * runs.len(),
        run_bytes(runs).subrange(16 * i, 16 * i + 8) == le(runs[i].start as nat, 8),
        run_bytes(runs).subrange(16 * i + 8, 16 * i + 16) == le(runs[i].end as nat, 8),
    decreases runs.len(),
{
    let front = runs.drop_last();
    let last = runs.last();
    lemma_le_len(last.start as nat, 8);
    lemma_le_len(last.end as nat, 8);
    let b = run_bytes(runs);
    let a = run_bytes(front);
    if front.len() == 0 {
        assert(a.len() == 0);
    } else {
        lemma_runs(front, 0);
    }
    if i < front.len() {
        lemma_runs(front, i);
        assert(b.subrange(16 * i, 16 * i + 8) =~= a.subrange(16 * i, 16 * i + 8));
        assert(b.subrange(16 * i + 8, 16 * i + 16) =~= a.subrange(16 * i + 8, 16 * i + 16));
    } else {
        assert(b.subrange(16 * i, 16 * i + 8) =~= le(last.start as nat, 8));
        assert(b.subrange(16 * i + 8, 16 * i + 16) =~= le(last.end as nat, 8));
    }
}

/// A chunk travels as its number, its lengths in the log and in the file, when
/// it was first and last written, what it carries beside it, and its bytes
/// where they travel.
pub proof fn a_chunk_is_laid_out(f: FrameModel)
    requires
        f is Chunk,
    ensures
        ({
            let p = payload_of(f);
            &&& p.len() >= 44
            &&& p.subrange(0, 8) == le(f->seq as nat, 8)
            &&& p.subrange(8, 16) == le(f->uncomp_len as nat, 8)
            &&& p.subrange(16, 24) == le(f->comp_len as nat, 8)
            &&& p.subrange(24, 32) == le(f->first_write_ms as nat, 8)
            &&& p.subrange(32, 40) == le(f->last_write_ms as nat, 8)
            &&& p.subrange(40, 44) == le(f->Chunk_sidecars.len() % 0x1_0000_0000, 4)
            &&& f->comp is None ==> p.skip(40) == sidecar_table(f->Chunk_sidecars)
                + sidecar_bodies(f->Chunk_sidecars)
            &&& f->comp is Some ==> p.skip(40) == sidecar_table(f->Chunk_sidecars)
                + f->comp->Some_0 + sidecar_bodies(f->Chunk_sidecars)
        }),
{
    let p = payload_of(f);
    let s = f->Chunk_sidecars;
    lemma_le_len(f->seq as nat, 8);
    lemma_le_len(f->uncomp_len as nat, 8);
    lemma_le_len(f->comp_len as nat, 8);
    lemma_le_len(f->first_write_ms as nat, 8);
    lemma_le_len(f->last_write_ms as nat, 8);
    lemma_le_len(len32(s.len()), 4);
    assert(p.subrange(0, 8) =~= le(f->seq as nat, 8));
    assert(p.subrange(8, 16) =~= le(f->uncomp_len as nat, 8));
    assert(p.subrange(16, 24) =~= le(f->comp_len as nat, 8));
    assert(p.subrange(24, 32) =~= le(f->first_write_ms as nat, 8));
    assert(p.subrange(32, 40) =~= le(f->last_write_ms as nat, 8));
    assert(p.subrange(40, 44) =~= le(len32(s.len()), 4));
    if f->comp is None {
        assert(p.skip(40) =~= sidecar_table(s) + sidecar_bodies(s));
    } else {
        assert(p.skip(40) =~= sidecar_table(s) + f->comp->Some_0 + sidecar_bodies(s));
    }
}

/// A stream opens with where it comes from, who sends it, the first and the
/// last of its chunks, how it is to be answered, and what it carries.
pub proof fn an_opening_is_laid_out(f: FrameModel)
    requires
        f is StreamOpen,
        f->origin_id.len() == 16,
        f->sender_id.len() == 16,
    ensures
        ({
            let p = payload_of(f);
            &&& p.len() >= 60
            &&& p.subrange(0, 16) == f->origin_id
            &&& p.subrange(16, 32) == f->sender_id
            &&& p.subrange(32, 40) == le(f->first_seq as nat, 8)
            &&& p.subrange(40, 48) == le(f->last_seq as nat, 8)
            &&& p.subrange(48, 52) == le(
                (if f->mode is Coverage {
                    1nat
                } else if f->mode is Index {
                    2nat
                } else {
                    3nat
                }),
                4,
            )
            &&& p.subrange(52, 56) == le(f->provenance.len() % 0x1_0000_0000, 4)
            &&& p.skip(56) == sidecar_table(f->StreamOpen_sidecars) + f->provenance
                + sidecar_bodies(f->StreamOpen_sidecars)
        }),
{
    let p = payload_of(f);
    let s = f->StreamOpen_sidecars;
    lemma_le_len(f->first_seq as nat, 8);
    lemma_le_len(f->last_seq as nat, 8);
    lemma_le_len(mode_wire(f->mode) as nat, 4);
    lemma_le_len(len32(f->provenance.len()), 4);
    lemma_le_len(len32(s.len()), 4);
    assert(p.subrange(0, 16) =~= f->origin_id);
    assert(p.subrange(16, 32) =~= f->sender_id);
    assert(p.subrange(32, 40) =~= le(f->first_seq as nat, 8));
    assert(p.subrange(40, 48) =~= le(f->last_seq as nat, 8));
    assert(p.subrange(48, 52) =~= le(mode_wire(f->mode) as nat, 4));
    assert(p.subrange(52, 56) =~= le(len32(f->provenance.len()), 4));
    assert(p.skip(56) =~= sidecar_table(s) + f->provenance + sidecar_bodies(s));
}

/// No list of runs that is accepted holds a run that ends before it starts, and
/// none is cut short.
pub proof fn accepted_runs_make_sense(p: Seq<u8>)
    ensures
        payload_frame(3, p) is Ok ==> payload_frame(3, p)->Ok_0 is Coverage && sensible(
            payload_frame(3, p)->Ok_0->Coverage_runs,
        ) && p.len() >= 4 + 16 * payload_frame(3, p)->Ok_0->Coverage_runs.len(),
        payload_frame(4, p) is Ok ==> payload_frame(4, p)->Ok_0 is Accepted && sensible(
            payload_frame(4, p)->Ok_0->Accepted_runs,
        ) && payload_frame(4, p)->Ok_0->registration_id == p.subrange(0, 16) && p.len() >= 20 + 16
            * payload_frame(4, p)->Ok_0->Accepted_runs.len(),
{
    lemma_sensible(p, 0);
    lemma_sensible(p, 16);
}

/// No conflict that is accepted holds a run that ends before it starts.
pub proof fn an_accepted_conflict_makes_sense(p: Seq<u8>)
    ensures
        conflict_of(p) is Ok ==> conflict_of(p)->Ok_0 is Conflict && sensible(
            conflict_of(p)->Ok_0->Conflict_runs,
        ) && conflict_of(p)->Ok_0->holder_origin == p.subrange(0, 16) && p.len() >= 24 + 16
            * conflict_of(p)->Ok_0->Conflict_runs.len(),
        payload_frame(5, p) == conflict_of(p),
{
    lemma_sensible(p, 16);
}

/// A chunk that is accepted is whole or left out, and nothing is left over.
pub proof fn an_accepted_chunk_is_whole_or_left_out(p: Seq<u8>)
    ensures
        chunk_of(p) is Ok ==> chunk_of(p)->Ok_0 is Chunk && p.len() >= 44 && (
        chunk_of(p)->Ok_0->comp is Some ==> chunk_of(p)->Ok_0->comp->Some_0.len()
            == chunk_of(p)->Ok_0->comp_len),
        payload_frame(2, p) == chunk_of(p),
{
    if chunk_of(p) is Ok {
        let (table, at) = table_at(p, 40)->Ok_0;
        lemma_bodies(table, table.len() as int);
        let rest = p.len() - at - bodies_len(table, table.len() as int);
        assert(p.subrange(at, at + rest).len() == rest);
    }
}

proof fn lemma_bodies(table: Seq<EntryModel>, k: int)
    requires
        0 <= k <= table.len(),
    ensures
        bodies_len(table, k) >= 0,
    decreases k,
{
    if k > 0 {
        lemma_bodies(table, k - 1);
    }
}

/// A kind that is not known is taken as it stands.
pub proof fn an_unknown_kind_is_taken_as_it_stands(kind: u32, p: Seq<u8>)
    requires
        kind < 1 || kind > 5,
    ensures
        payload_frame(kind, p) == Ok::<FrameModel, FrameError>(
            (FrameModel::Unknown { kind, payload: p }),
        ),
{
}

/// Whether no run ends before it starts.
pub open spec fn sensible(runs: Seq<Run>) -> bool {
    forall|i: int| 0 <= i < runs.len() ==> (#[trigger] runs[i]).start <= runs[i].end
}

proof fn lemma_sensible(p: Seq<u8>, at: int)
    requires
        at >= 0,
    ensures
        runs_at(p, at) is Ok ==> sensible(runs_at(p, at)->Ok_0.0) && p.len() >= at + 4 + 16
            * runs_at(p, at)->Ok_0.0.len() && runs_at(p, at)->Ok_0.1 >= at + 4,
{
    if runs_at(p, at) is Ok {
        let runs = runs_at(p, at)->Ok_0.0;
        assert forall|i: int| 0 <= i < runs.len() implies (#[trigger] runs[i]).start
            <= runs[i].end by {
            assert(!(crate::frame::run_at(p, at + 4 + 16 * i).end < crate::frame::run_at(
                p,
                at + 4 + 16 * i,
            ).start));
        }
    }
}

/// Bytes are waited for exactly where a frame is not whole, and refused at once
/// where its payload is over the cap of 64 MiB.
pub proof fn a_frame_is_waited_for_until_it_is_whole(buf: Seq<u8>)
    ensures
        buf.len() < 12 ==> decoded(buf) == Ok::<Option<(FramedModel, int)>, FrameError>(None),
        buf.len() >= 12 && le_at(buf, 8, 4) > 64 * 1024 * 1024 ==> decoded(buf) is Err,
        buf.len() >= 12 && le_at(buf, 8, 4) <= 64 * 1024 * 1024 ==> (decoded(buf) == Ok::<
            Option<(FramedModel, int)>,
            FrameError,
        >(None) <==> buf.len() < 12 + le_at(buf, 8, 4)),
        decoded(buf) is Ok && decoded(buf)->Ok_0 is Some ==> decoded(buf)->Ok_0->Some_0.1 == 12
            + le_at(buf, 8, 4),
{
}

/// A hello is sixteen bytes: what it is, its version, which is one, and what
/// the far end must honour, which is nothing; any other is refused.
pub proof fn a_hello_is_laid_out(h: Hello, buf: Seq<u8>)
    ensures
        encoded_hello(h).len() == 16,
        encoded_hello(h).subrange(0, 8) == seq![0x54u8, 0x49, 0x4d, 0x42, 0x53, 0x54, 0x52, 0x31],
        encoded_hello(h).subrange(8, 12) == le(h.version as nat, 4),
        encoded_hello(h).subrange(12, 16) == le(h.incompat as nat, 4),
        buf.len() < 16 ==> decoded_hello(buf) == Ok::<Option<(Hello, int)>, FrameError>(None),
        buf.len() >= 16 ==> (decoded_hello(buf) is Ok <==> buf.subrange(0, 8) == seq![
            0x54u8,
            0x49,
            0x4d,
            0x42,
            0x53,
            0x54,
            0x52,
            0x31,
        ] && le_at(buf, 8, 4) as u32 == 1 && le_at(buf, 12, 4) as u32 == 0),
{
    let m = crate::frame::MAGIC@;
    assert(m =~= seq![0x54u8, 0x49, 0x4d, 0x42, 0x53, 0x54, 0x52, 0x31]);
    lemma_le_len(h.version as nat, 4);
    lemma_le_len(h.incompat as nat, 4);
    assert(encoded_hello(h).subrange(0, 8) =~= m);
    assert(encoded_hello(h).subrange(8, 12) =~= le(h.version as nat, 4));
    assert(encoded_hello(h).subrange(12, 16) =~= le(h.incompat as nat, 4));
}

/// What a frame carries beside it is listed first, each by its kind, in eight
/// bytes, and its length, in four, behind how many there are; their bytes
/// follow one behind another.
pub proof fn what_travels_beside_is_listed_first(sidecars: Seq<SidecarModel>, i: int)
    requires
        0 <= i < sidecars.len() < 0x1_0000_0000,
        forall|j: int| 0 <= j < sidecars.len() ==> (#[trigger] sidecars[j]).kind.len() == 8,
    ensures
        sidecar_table(sidecars).len() == 4 + 12 * sidecars.len(),
        sidecar_table(sidecars).subrange(0, 4) == le(sidecars.len(), 4),
        sidecar_table(sidecars).subrange(4 + 12 * i, 12 + 12 * i) == sidecars[i].kind,
        sidecar_table(sidecars).subrange(12 + 12 * i, 16 + 12 * i) == le(
            sidecars[i].bytes.len() % 0x1_0000_0000,
            4,
        ),
{
    lemma_le_len(sidecars.len(), 4);
    lemma_table(sidecars, i);
    let t = sidecar_table(sidecars);
    let b = table_bytes(sidecars);
    assert(t.subrange(0, 4) =~= le(sidecars.len(), 4));
    assert(t.subrange(4 + 12 * i, 12 + 12 * i) =~= b.subrange(12 * i, 12 * i + 8));
    assert(t.subrange(12 + 12 * i, 16 + 12 * i) =~= b.subrange(12 * i + 8, 12 * i + 12));
}

proof fn lemma_table(sidecars: Seq<SidecarModel>, i: int)
    requires
        0 <= i < sidecars.len(),
        forall|j: int| 0 <= j < sidecars.len() ==> (#[trigger] sidecars[j]).kind.len() == 8,
    ensures
        table_bytes(sidecars).len() == 12 * sidecars.len(),
        table_bytes(sidecars).subrange(12 * i, 12 * i + 8) == sidecars[i].kind,
        table_bytes(sidecars).subrange(12 * i + 8, 12 * i + 12) == le(
            len32(sidecars[i].bytes.len()),
            4,
        ),
    decreases sidecars.len(),
{
    let front = sidecars.drop_last();
    let last = sidecars.last();
    assert(sidecars[sidecars.len() - 1].kind.len() == 8);
    assert forall|j: int| 0 <= j < front.len() implies (#[trigger] front[j]).kind.len() == 8 by {
        assert(sidecars[j].kind.len() == 8);
    }
    lemma_le_len(len32(last.bytes.len()), 4);
    let a = table_bytes(front);
    let b = table_bytes(sidecars);
    if front.len() > 0 {
        lemma_table(front, 0);
    }
    if i < front.len() {
        lemma_table(front, i);
        assert(b.subrange(12 * i, 12 * i + 8) =~= a.subrange(12 * i, 12 * i + 8));
        assert(b.subrange(12 * i + 8, 12 * i + 12) =~= a.subrange(12 * i + 8, 12 * i + 12));
    } else {
        assert(b.subrange(12 * i, 12 * i + 8) =~= last.kind);
        assert(b.subrange(12 * i + 8, 12 * i + 12) =~= le(len32(last.bytes.len()), 4));
    }
}

/// The bytes of what travels beside follow one behind another, in order.
pub proof fn what_travels_beside_follows_in_order(a: Seq<SidecarModel>, s: SidecarModel)
    ensures
        sidecar_bodies(Seq::empty()).len() == 0,
        sidecar_bodies(a.push(s)) == sidecar_bodies(a) + s.bytes,
{
    assert(a.push(s).drop_last() =~= a);
}

/// A kind's tag is its name in eight bytes, filled up with zeros.
pub proof fn a_tag_is_its_name_in_eight_bytes(name: Seq<char>)
    ensures
        tag_of(name).len() == 8,
        encode_utf8(name).len() >= 8 ==> tag_of(name) == encode_utf8(name).take(8),
        encode_utf8(name).len() < 8 ==> tag_of(name).take(encode_utf8(name).len() as int)
            == encode_utf8(name) && forall|i: int|
            encode_utf8(name).len() <= i < 8 ==> #[trigger] tag_of(name)[i] == 0,
{
    let b = encode_utf8(name);
    if b.len() >= 8 {
        assert(tag_of(name) =~= b.take(8));
    } else {
        assert(tag_of(name).take(b.len() as int) =~= b);
    }
}

/// A file of a store stands beside the others, under the store's name and its
/// own ending.
pub proof fn a_file_of_a_store_has_its_own_ending(dir: Seq<char>, name: Seq<char>, ext: Seq<char>)
    requires
        dir.len() > 0,
        dir.last() != '/',
        name.len() > 0,
        name[0] != '/',
    ensures
        backing_file(dir, name, ext) == dir + "/"@ + name + "."@ + ext,
{
    let n = name + "."@ + ext;
    assert(n[0] == name[0]);
    assert(dir + "/"@ + n =~= dir + "/"@ + name + "."@ + ext);
}

/// An index whose header is shorter than the field says nothing of it; one that
/// is long enough says what stands there.
pub proof fn a_short_header_says_less(b: Seq<u8>)
    ensures
        !has_magic(b, RINGS_MAGIC@) ==> next_seq_of(b) == 0 && store_id_of(b) is None && dropped_of(
            b,
        ) == (Dropped { uncomp_bytes: 0, comp_bytes: 0 }),
        has_magic(b, RINGS_MAGIC@) && b.len() >= 32 ==> next_seq_of(b) == le_at(b, 24, 8) as u64,
        has_magic(b, RINGS_MAGIC@) && b.len() >= 48 && le_at(b, 8, 8) >= 48 ==> dropped_of(b) == (
        Dropped { uncomp_bytes: le_at(b, 32, 8) as u64, comp_bytes: le_at(b, 40, 8) as u64 }),
        b.len() < 48 || le_at(b, 8, 8) < 48 ==> dropped_of(b) == (Dropped {
            uncomp_bytes: 0,
            comp_bytes: 0,
        }),
        b.len() < 64 || le_at(b, 8, 8) < 64 ==> store_id_of(b) is None,
        store_id_of(b) is Some ==> store_id_of(b) == Some(b.subrange(48, 64)) && exists|i: int|
            48 <= i < 64 && #[trigger] b[i] != 0,
        has_magic(b, RINGS_MAGIC@) && b.len() >= 64 && le_at(b, 8, 8) >= 64 && (exists|i: int|
            48 <= i < 64 && #[trigger] b[i] != 0) ==> store_id_of(b) is Some,
{
    let zeros = Seq::new(16, |i: int| 0u8);
    if b.len() >= 64 {
        let id = b.subrange(48, 64);
        if id != zeros {
            if forall|i: int| 48 <= i < 64 ==> #[trigger] b[i] == 0 {
                assert forall|i: int| 0 <= i < 16 implies id[i] == zeros[i] by {
                    assert(b[48 + i] == 0);
                }
                assert(id =~= zeros);
            }
        }
        if exists|i: int| 48 <= i < 64 && #[trigger] b[i] != 0 {
            let i = choose|i: int| 48 <= i < 64 && #[trigger] b[i] != 0;
            assert(id[i - 48] != zeros[i - 48]);
        }
    }
}

} // verus!
