//! What holds of the replication codec as a whole.

use crate::bytes::{le, le_at, lemma_le_in_middle, lemma_le_len, lemma_le_round_trip, lemma_pow256};
use crate::frame::{
    bodies_at, bodies_fit, bodies_len, decoded, decoded_hello, encoded, encoded_hello, entry_at,
    mode_wire, payload_frame, payload_of, run_at, run_bytes, run_list, runs_at, sidecar_bodies, sidecar_table,
    table_at, table_bytes, wire_kind_of, EntryModel, FrameError, FrameModel, FramedModel,
    Hello, Run, SidecarModel, FRAME_HEADER_LEN, HELLO_LEN, MAGIC, MAX_PAYLOAD, VERSION,
};
use vstd::prelude::*;
use vstd::utf8::{encode_utf8, encode_utf8_decode_utf8, encode_utf8_valid_utf8};

verus! {

/// A run list that can travel: every run ends where it starts, or after.
pub open spec fn runs_valid(runs: Seq<Run>) -> bool {
    &&& runs.len() < 0x1_0000_0000
    &&& forall|i: int| 0 <= i < runs.len() ==> (#[trigger] runs[i]).start <= runs[i].end
}

/// Sidecars that can travel: tags of eight bytes, lengths that fit their field.
pub open spec fn sidecars_valid(sidecars: Seq<SidecarModel>) -> bool {
    &&& sidecars.len() < 0x1_0000_0000
    &&& forall|i: int|
        0 <= i < sidecars.len() ==> (#[trigger] sidecars[i]).kind.len() == 8
            && sidecars[i].bytes.len() < 0x1_0000_0000
}

/// A frame that can travel: what its types say of its ids, lengths that fit
/// the wire, runs the right way round, a chunk whose bytes are as many as it
/// declares and not none, and no known kind spelled as an unknown one.
pub open spec fn frame_valid(f: FrameModel) -> bool {
    &&& payload_of(f).len() <= MAX_PAYLOAD
    &&& match f {
        FrameModel::StreamOpen { origin_id, sender_id, provenance, sidecars, .. } => {
            origin_id.len() == 16 && sender_id.len() == 16 && provenance.len() < 0x1_0000_0000
                && sidecars_valid(sidecars)
        },
        FrameModel::Chunk { comp_len, comp, sidecars, .. } => {
            &&& sidecars_valid(sidecars)
            &&& match comp {
                Some(bytes) => bytes.len() > 0 && bytes.len() == comp_len,
                None => true,
            }
        },
        FrameModel::Coverage { runs } => runs_valid(runs),
        FrameModel::Accepted { registration_id, runs } => registration_id.len() == 16
            && runs_valid(runs),
        FrameModel::Conflict { holder_origin, runs, reason } => holder_origin.len() == 16
            && runs_valid(runs) && encode_utf8(reason).len() < 0x1_0000_0000,
        FrameModel::Unknown { kind, .. } => kind < 1 || kind > 5,
    }
}

proof fn lemma_run_bytes(runs: Seq<Run>)
    ensures
        run_bytes(runs).len() == 16 * runs.len(),
        forall|i: int|
            0 <= i < runs.len() ==> #[trigger] run_at(run_bytes(runs), 16 * i) == runs[i],
    decreases runs.len(),
{
    if runs.len() > 0 {
        let init = runs.drop_last();
        let last = runs.last();
        lemma_run_bytes(init);
        lemma_le_len(last.start as nat, 8);
        lemma_le_len(last.end as nat, 8);
        lemma_pow256();
        let all = run_bytes(runs);
        assert forall|i: int| 0 <= i < runs.len() implies #[trigger] run_at(all, 16 * i)
            == runs[i] by {
            if i < init.len() {
                assert(all.subrange(16 * i, 16 * i + 8) =~= run_bytes(init).subrange(
                    16 * i,
                    16 * i + 8,
                ));
                assert(all.subrange(16 * i + 8, 16 * i + 16) =~= run_bytes(init).subrange(
                    16 * i + 8,
                    16 * i + 16,
                ));
                assert(run_at(run_bytes(init), 16 * i) == init[i]);
            } else {
                let a = run_bytes(init);
                lemma_le_in_middle(a, last.start as nat, 8, le(last.end as nat, 8));
                lemma_le_in_middle(
                    a + le(last.start as nat, 8),
                    last.end as nat,
                    8,
                    Seq::empty(),
                );
                assert(all =~= a + le(last.start as nat, 8) + le(last.end as nat, 8)
                    + Seq::<u8>::empty());
            }
        }
    }
}

proof fn lemma_runs_at(pre: Seq<u8>, runs: Seq<Run>, post: Seq<u8>)
    requires
        runs_valid(runs),
    ensures
        run_list(runs).len() == 4 + 16 * runs.len(),
        runs_at(pre + run_list(runs) + post, pre.len() as int) == Ok::<
            (Seq<Run>, int),
            FrameError,
        >((runs, (pre.len() + 4 + 16 * runs.len()) as int)),
{
    let p = pre + run_list(runs) + post;
    let at = pre.len() as int;
    let n = runs.len();
    lemma_pow256();
    lemma_run_bytes(runs);
    lemma_le_in_middle(pre, n, 4, run_bytes(runs) + post);
    assert(p =~= pre + le(n, 4) + (run_bytes(runs) + post));
    assert forall|i: int| 0 <= i < n implies #[trigger] run_at(p, at + 4 + 16 * i) == runs[i] by {
        assert(run_at(run_bytes(runs), 16 * i) == runs[i]);
        assert(p.subrange(at + 4 + 16 * i, at + 4 + 16 * i + 8) =~= run_bytes(runs).subrange(
            16 * i,
            16 * i + 8,
        ));
        assert(p.subrange(at + 4 + 16 * i + 8, at + 4 + 16 * i + 16) =~= run_bytes(runs).subrange(
            16 * i + 8,
            16 * i + 16,
        ));
    }
    assert(Seq::new(n, |i: int| run_at(p, at + 4 + 16 * i)) =~= runs);
}

/// The table that goes with a list of sidecars.
spec fn entries_of(sidecars: Seq<SidecarModel>) -> Seq<EntryModel> {
    Seq::new(
        sidecars.len(),
        |i: int| EntryModel { kind: sidecars[i].kind, len: sidecars[i].bytes.len() },
    )
}

proof fn lemma_table_bytes(sidecars: Seq<SidecarModel>)
    requires
        sidecars_valid(sidecars),
    ensures
        table_bytes(sidecars).len() == 12 * sidecars.len(),
        forall|i: int|
            0 <= i < sidecars.len() ==> #[trigger] entry_at(table_bytes(sidecars), 12 * i)
                == entries_of(sidecars)[i],
    decreases sidecars.len(),
{
    if sidecars.len() > 0 {
        let init = sidecars.drop_last();
        let last = sidecars.last();
        assert forall|i: int| 0 <= i < init.len() implies (#[trigger] init[i]).kind.len() == 8
            && init[i].bytes.len() < 0x1_0000_0000 by {
            assert(init[i] == sidecars[i]);
        }
        lemma_table_bytes(init);
        assert(last == sidecars[sidecars.len() - 1]);
        let n = last.bytes.len();
        lemma_le_len(n, 4);
        lemma_pow256();
        let all = table_bytes(sidecars);
        let a = table_bytes(init);
        assert forall|i: int| 0 <= i < sidecars.len() implies #[trigger] entry_at(all, 12 * i)
            == entries_of(sidecars)[i] by {
            if i < init.len() {
                assert(entry_at(a, 12 * i) == entries_of(init)[i]);
                assert(all.subrange(12 * i, 12 * i + 8) =~= a.subrange(12 * i, 12 * i + 8));
                assert(all.subrange(12 * i + 8, 12 * i + 12) =~= a.subrange(
                    12 * i + 8,
                    12 * i + 12,
                ));
            } else {
                assert(all.subrange(12 * i, 12 * i + 8) =~= last.kind);
                lemma_le_in_middle(a + last.kind, n, 4, Seq::empty());
                assert(all =~= a + last.kind + le(n, 4) + Seq::<u8>::empty());
            }
        }
    }
}

proof fn lemma_table_at(pre: Seq<u8>, sidecars: Seq<SidecarModel>, post: Seq<u8>)
    requires
        sidecars_valid(sidecars),
    ensures
        sidecar_table(sidecars).len() == 4 + 12 * sidecars.len(),
        table_at(pre + sidecar_table(sidecars) + post, pre.len() as int) == Ok::<
            (Seq<EntryModel>, int),
            FrameError,
        >((entries_of(sidecars), (pre.len() + 4 + 12 * sidecars.len()) as int)),
{
    let p = pre + sidecar_table(sidecars) + post;
    let at = pre.len() as int;
    let n = sidecars.len();
    let t = table_bytes(sidecars);
    lemma_pow256();
    lemma_table_bytes(sidecars);
    lemma_le_in_middle(pre, n, 4, t + post);
    assert(p =~= pre + le(n, 4) + (t + post));
    assert forall|i: int| 0 <= i < n implies #[trigger] entry_at(p, at + 4 + 12 * i)
        == entries_of(sidecars)[i] by {
        assert(entry_at(t, 12 * i) == entries_of(sidecars)[i]);
        let here = at + 4 + 12 * i;
        assert(p.subrange(here, here + 8) =~= t.subrange(12 * i, 12 * i + 8));
        assert(p.subrange(here + 8, here + 12) =~= t.subrange(12 * i + 8, 12 * i + 12));
    }
    assert(Seq::new(n, |i: int| entry_at(p, at + 4 + 12 * i)) =~= entries_of(sidecars));
}

proof fn lemma_bodies_len_prefix(a: Seq<EntryModel>, b: Seq<EntryModel>, k: int)
    requires
        0 <= k <= a.len(),
        k <= b.len(),
        forall|i: int| 0 <= i < k ==> a[i] == b[i],
    ensures
        bodies_len(a, k) == bodies_len(b, k),
        bodies_len(a, k) >= 0,
    decreases k,
{
    if k > 0 {
        lemma_bodies_len_prefix(a, b, k - 1);
    }
}

proof fn lemma_bodies_at(pre: Seq<u8>, sidecars: Seq<SidecarModel>, post: Seq<u8>)
    ensures
        bodies_len(entries_of(sidecars), sidecars.len() as int) == sidecar_bodies(sidecars).len(),
        bodies_at(
            pre + sidecar_bodies(sidecars) + post,
            pre.len() as int,
            entries_of(sidecars),
        ) == sidecars,
        bodies_fit(
            pre + sidecar_bodies(sidecars) + post,
            pre.len() as int,
            entries_of(sidecars),
        ),
    decreases sidecars.len(),
{
    let table = entries_of(sidecars);
    let p = pre + sidecar_bodies(sidecars) + post;
    let at = pre.len() as int;
    if sidecars.len() > 0 {
        let init = sidecars.drop_last();
        let last = sidecars.last();
        lemma_bodies_at(pre, init, last.bytes + post);
        assert(p =~= pre + sidecar_bodies(init) + (last.bytes + post));
        let n = init.len() as int;
        lemma_bodies_len_prefix(table, entries_of(init), n);
        assert(bodies_len(table, n + 1) == bodies_len(table, n) + table[n].len);
        assert forall|i: int| 0 <= i < sidecars.len() implies #[trigger] bodies_at(
            p,
            at,
            table,
        )[i] == sidecars[i] by {
            if i < n {
                lemma_bodies_len_prefix(table, entries_of(init), i);
                lemma_bodies_len_prefix(table, entries_of(init), i + 1);
                assert(bodies_at(p, at, entries_of(init))[i] == init[i]);
            } else {
                assert(p.subrange(at + bodies_len(table, n), at + bodies_len(table, n + 1))
                    =~= last.bytes);
            }
        }
    }
    assert(bodies_at(p, at, table) =~= sidecars);
}

/// The fixed fields of a stream's opening, read back.
proof fn lemma_open_head(a: Seq<u8>, b: Seq<u8>, first: u64, last: u64, m: u32, n: nat)
    requires
        a.len() == 16,
        b.len() == 16,
        n < 0x1_0000_0000,
    ensures
        ({
            let head = a + b + le(first as nat, 8) + le(last as nat, 8) + le(m as nat, 4) + le(n, 4);
            &&& head.len() == 56
            &&& head.subrange(0, 16) == a
            &&& head.subrange(16, 32) == b
            &&& le_at(head, 32, 8) == first
            &&& le_at(head, 40, 8) == last
            &&& le_at(head, 48, 4) == m
            &&& le_at(head, 52, 4) == n
        }),
{
    let head = a + b + le(first as nat, 8) + le(last as nat, 8) + le(m as nat, 4) + le(n, 4);
    lemma_pow256();
    lemma_le_round_trip(first as nat, 8);
    lemma_le_round_trip(last as nat, 8);
    lemma_le_round_trip(m as nat, 4);
    lemma_le_round_trip(n, 4);
    assert(head.subrange(0, 16) =~= a);
    assert(head.subrange(16, 32) =~= b);
    assert(head.subrange(32, 40) =~= le(first as nat, 8));
    assert(head.subrange(40, 48) =~= le(last as nat, 8));
    assert(head.subrange(48, 52) =~= le(m as nat, 4));
    assert(head.subrange(52, 56) =~= le(n, 4));
}

/// A field in a prefix is the same field in the whole.
proof fn lemma_in_prefix(head: Seq<u8>, rest: Seq<u8>, at: int, n: int)
    requires
        0 <= at <= at + n <= head.len(),
    ensures
        (head + rest).subrange(at, at + n) == head.subrange(at, at + n),
        le_at(head + rest, at, n) == le_at(head, at, n),
{
    assert((head + rest).subrange(at, at + n) =~= head.subrange(at, at + n));
}

proof fn lemma_stream_open(f: FrameModel)
    requires
        f is StreamOpen,
        frame_valid(f),
    ensures
        payload_frame(1, payload_of(f)) == Ok::<FrameModel, FrameError>(f),
{
    match f {
        FrameModel::StreamOpen {
            origin_id,
            sender_id,
            first_seq,
            last_seq,
            mode,
            provenance,
            sidecars,
        } => {
            let p = payload_of(f);
            let m = mode_wire(mode);
            let n = provenance.len();
            let table = sidecar_table(sidecars);
            let bodies = sidecar_bodies(sidecars);
            let head = origin_id + sender_id + le(first_seq as nat, 8) + le(last_seq as nat, 8)
                + le(m as nat, 4) + le(n, 4);
            let rest = table + provenance + bodies;
            lemma_open_head(origin_id, sender_id, first_seq, last_seq, m, n);
            assert(p == head + table + provenance + bodies);
            assert(p =~= head + rest);
            lemma_in_prefix(head, rest, 0, 16);
            lemma_in_prefix(head, rest, 16, 16);
            lemma_in_prefix(head, rest, 32, 8);
            lemma_in_prefix(head, rest, 40, 8);
            lemma_in_prefix(head, rest, 48, 4);
            lemma_in_prefix(head, rest, 52, 4);
            lemma_table_at(head, sidecars, provenance + bodies);
            assert(p =~= head + table + (provenance + bodies));
            let before = head + table + provenance;
            lemma_bodies_at(before, sidecars, Seq::empty());
            assert(p =~= before + bodies + Seq::<u8>::empty());
            let at = (head + table).len() as int;
            assert(p.subrange(at, at + n) =~= provenance);
        },
        _ => {},
    }
}

/// The fixed fields of a chunk, read back.
proof fn lemma_chunk_head(a: u64, b: u64, c: u64, d: u64, e: u64)
    ensures
        ({
            let head = le(a as nat, 8) + le(b as nat, 8) + le(c as nat, 8) + le(d as nat, 8) + le(
                e as nat,
                8,
            );
            &&& head.len() == 40
            &&& le_at(head, 0, 8) == a
            &&& le_at(head, 8, 8) == b
            &&& le_at(head, 16, 8) == c
            &&& le_at(head, 24, 8) == d
            &&& le_at(head, 32, 8) == e
        }),
{
    let head = le(a as nat, 8) + le(b as nat, 8) + le(c as nat, 8) + le(d as nat, 8) + le(
        e as nat,
        8,
    );
    lemma_pow256();
    lemma_le_round_trip(a as nat, 8);
    lemma_le_round_trip(b as nat, 8);
    lemma_le_round_trip(c as nat, 8);
    lemma_le_round_trip(d as nat, 8);
    lemma_le_round_trip(e as nat, 8);
    assert(head.subrange(0, 8) =~= le(a as nat, 8));
    assert(head.subrange(8, 16) =~= le(b as nat, 8));
    assert(head.subrange(16, 24) =~= le(c as nat, 8));
    assert(head.subrange(24, 32) =~= le(d as nat, 8));
    assert(head.subrange(32, 40) =~= le(e as nat, 8));
}

proof fn lemma_chunk(f: FrameModel)
    requires
        f is Chunk,
        frame_valid(f),
    ensures
        payload_frame(2, payload_of(f)) == Ok::<FrameModel, FrameError>(f),
{
    match f {
        FrameModel::Chunk {
            seq,
            uncomp_len,
            comp_len,
            comp,
            first_write_ms,
            last_write_ms,
            sidecars,
        } => {
            let p = payload_of(f);
            let table = sidecar_table(sidecars);
            let bodies = sidecar_bodies(sidecars);
            let body = match comp {
                Some(bytes) => bytes,
                None => Seq::empty(),
            };
            let head = le(seq as nat, 8) + le(uncomp_len as nat, 8) + le(comp_len as nat, 8) + le(
                first_write_ms as nat,
                8,
            ) + le(last_write_ms as nat, 8);
            let rest = table + body + bodies;
            lemma_chunk_head(seq, uncomp_len, comp_len, first_write_ms, last_write_ms);
            assert(p == head + table + body + bodies);
            assert(p =~= head + rest);
            lemma_in_prefix(head, rest, 0, 8);
            lemma_in_prefix(head, rest, 8, 8);
            lemma_in_prefix(head, rest, 16, 8);
            lemma_in_prefix(head, rest, 24, 8);
            lemma_in_prefix(head, rest, 32, 8);
            lemma_table_at(head, sidecars, body + bodies);
            assert(p =~= head + table + (body + bodies));
            let before = head + table + body;
            lemma_bodies_at(before, sidecars, Seq::empty());
            assert(p =~= before + bodies + Seq::<u8>::empty());
            let at = (head + table).len() as int;
            assert(p.subrange(at, at + body.len()) =~= body);
        },
        _ => {},
    }
}

proof fn lemma_conflict(f: FrameModel)
    requires
        f is Conflict,
        frame_valid(f),
    ensures
        payload_frame(5, payload_of(f)) == Ok::<FrameModel, FrameError>(f),
{
    match f {
        FrameModel::Conflict { holder_origin, runs, reason } => {
            let p = payload_of(f);
            let text = encode_utf8(reason);
            let none = Seq::<u8>::empty();
            lemma_pow256();
            lemma_le_len(text.len(), 4);
            assert(p =~= holder_origin + run_list(runs) + (le(text.len(), 4) + text));
            lemma_runs_at(holder_origin, runs, le(text.len(), 4) + text);
            let head = holder_origin + run_list(runs);
            assert(p =~= head + le(text.len(), 4) + text);
            lemma_le_in_middle(head, text.len(), 4, text);
            assert(p.subrange(0, 16) =~= holder_origin);
            let at = head.len() + 4;
            assert(p.subrange(at as int, (at + text.len()) as int) =~= text);
            encode_utf8_valid_utf8(reason);
            encode_utf8_decode_utf8(reason);
        },
        _ => {},
    }
}

proof fn lemma_payload(f: FrameModel)
    requires
        frame_valid(f),
    ensures
        payload_frame(wire_kind_of(f), payload_of(f)) == Ok::<FrameModel, FrameError>(f),
{
    let none = Seq::<u8>::empty();
    match f {
        FrameModel::StreamOpen { .. } => lemma_stream_open(f),
        FrameModel::Chunk { .. } => lemma_chunk(f),
        FrameModel::Coverage { runs } => {
            lemma_runs_at(none, runs, none);
            assert(payload_of(f) =~= none + run_list(runs) + none);
        },
        FrameModel::Accepted { registration_id, runs } => {
            lemma_runs_at(registration_id, runs, none);
            assert(payload_of(f) =~= registration_id + run_list(runs) + none);
            assert(payload_of(f).subrange(0, 16) =~= registration_id);
        },
        FrameModel::Conflict { .. } => lemma_conflict(f),
        FrameModel::Unknown { .. } => {},
    }
}

proof fn lemma_header(f: FramedModel, tail: Seq<u8>)
    requires
        payload_of(f.frame).len() <= MAX_PAYLOAD,
    ensures
        encoded(f).len() == FRAME_HEADER_LEN + payload_of(f.frame).len(),
        le_at(encoded(f) + tail, 0, 4) == f.stream,
        le_at(encoded(f) + tail, 4, 4) == wire_kind_of(f.frame),
        le_at(encoded(f) + tail, 8, 4) == payload_of(f.frame).len(),
        (encoded(f) + tail).subrange(12, 12 + payload_of(f.frame).len() as int) == payload_of(f.frame),
{
    let p = payload_of(f.frame);
    let s = le(f.stream as nat, 4);
    let k = le(wire_kind_of(f.frame) as nat, 4);
    let n = le(p.len(), 4);
    let none = Seq::<u8>::empty();
    let whole = encoded(f) + tail;
    lemma_pow256();
    lemma_le_len(f.stream as nat, 4);
    lemma_le_len(wire_kind_of(f.frame) as nat, 4);
    lemma_le_len(p.len(), 4);
    assert(whole =~= none + s + (k + n + p + tail));
    assert(whole =~= s + k + (n + p + tail));
    assert(whole =~= s + k + n + (p + tail));
    lemma_le_in_middle(none, f.stream as nat, 4, k + n + p + tail);
    lemma_le_in_middle(s, wire_kind_of(f.frame) as nat, 4, n + p + tail);
    lemma_le_in_middle(s + k, p.len(), 4, p + tail);
    assert(whole.subrange(12, 12 + p.len() as int) =~= p);
}

/// Every frame that can travel round-trips, whatever follows it in the
/// buffer: decoding the bytes that encoding it wrote gives the frame back,
/// and takes those bytes and no more.
pub proof fn every_frame_round_trips(f: FramedModel, tail: Seq<u8>)
    requires
        frame_valid(f.frame),
    ensures
        decoded(encoded(f) + tail) == Ok::<_, FrameError>(Some((f, encoded(f).len() as int))),
{
    lemma_header(f, tail);
    lemma_payload(f.frame);
}

/// A buffer that stops short of a whole frame asks for more: it is never an
/// error and never a frame.
pub proof fn a_partial_frame_asks_for_more(f: FramedModel, n: int)
    requires
        payload_of(f.frame).len() <= MAX_PAYLOAD,
        0 <= n < encoded(f).len(),
    ensures
        decoded(encoded(f).take(n)) == Ok::<Option<(FramedModel, int)>, FrameError>(None),
{
    let cut = encoded(f).take(n);
    lemma_header(f, Seq::empty());
    assert(encoded(f) + Seq::<u8>::empty() =~= encoded(f));
    if n >= 12 {
        assert(cut.subrange(8, 12) =~= encoded(f).subrange(8, 12));
    }
}

/// A kind this build does not know is skippable: the frame that follows it
/// decodes from where the unknown one ends.
pub proof fn an_unknown_frame_is_skippable(
    stream: u32,
    kind: u32,
    payload: Seq<u8>,
    next: FramedModel,
    tail: Seq<u8>,
)
    requires
        kind < 1 || kind > 5,
        payload.len() <= MAX_PAYLOAD,
        frame_valid(next.frame),
    ensures
        ({
            let skipped = FramedModel { stream, frame: FrameModel::Unknown { kind, payload } };
            let buf = encoded(skipped) + encoded(next) + tail;
            let used = encoded(skipped).len() as int;
            &&& decoded(buf) == Ok::<_, FrameError>(Some((skipped, used)))
            &&& decoded(buf.skip(used)) == Ok::<_, FrameError>(
                Some((next, encoded(next).len() as int)),
            )
        }),
{
    let skipped = FramedModel { stream, frame: FrameModel::Unknown { kind, payload } };
    let buf = encoded(skipped) + encoded(next) + tail;
    every_frame_round_trips(skipped, encoded(next) + tail);
    assert(buf =~= encoded(skipped) + (encoded(next) + tail));
    every_frame_round_trips(next, tail);
    assert(buf.skip(encoded(skipped).len() as int) =~= encoded(next) + tail);
}

/// A frame is decided by its own bytes: what follows the bytes that a decode
/// took changes nothing.
pub proof fn a_frame_is_decided_by_its_own_bytes(buf: Seq<u8>, tail: Seq<u8>)
    requires
        decoded(buf) is Ok,
        decoded(buf)->Ok_0 is Some,
    ensures
        0 <= decoded(buf)->Ok_0->Some_0.1 <= buf.len(),
        decoded(buf.take(decoded(buf)->Ok_0->Some_0.1) + tail) == decoded(buf),
{
    let used = decoded(buf)->Ok_0->Some_0.1;
    let other = buf.take(used) + tail;
    assert(other.subrange(0, 4) =~= buf.subrange(0, 4));
    assert(other.subrange(4, 8) =~= buf.subrange(4, 8));
    assert(other.subrange(8, 12) =~= buf.subrange(8, 12));
    assert(other.subrange(12, used) =~= buf.subrange(12, used));
}

/// The hello that this build writes is the hello that it reads.
pub proof fn the_hello_round_trips(tail: Seq<u8>)
    ensures
        ({
            let h = Hello { version: VERSION, incompat: 0 };
            decoded_hello(encoded_hello(h) + tail) == Ok::<_, FrameError>(
                Some((h, HELLO_LEN as int)),
            )
        }),
{
    let h = Hello { version: VERSION, incompat: 0 };
    lemma_hello(h, tail);
}

proof fn lemma_hello(h: Hello, tail: Seq<u8>)
    ensures
        encoded_hello(h).len() == HELLO_LEN,
        (encoded_hello(h) + tail).subrange(0, 8) == MAGIC@,
        le_at(encoded_hello(h) + tail, 8, 4) == h.version,
        le_at(encoded_hello(h) + tail, 12, 4) == h.incompat,
{
    let whole = encoded_hello(h) + tail;
    let v = le(h.version as nat, 4);
    let i = le(h.incompat as nat, 4);
    lemma_pow256();
    lemma_le_len(h.version as nat, 4);
    lemma_le_len(h.incompat as nat, 4);
    assert(whole =~= MAGIC@ + v + (i + tail));
    assert(whole =~= MAGIC@ + v + i + tail);
    lemma_le_in_middle(MAGIC@, h.version as nat, 4, i + tail);
    lemma_le_in_middle(MAGIC@ + v, h.incompat as nat, 4, tail);
    assert(whole.subrange(0, 8) =~= MAGIC@);
}

/// A hello of another version, or one that sets an incompat bit, is refused
/// rather than guessed at, and the refusal names what was set.
pub proof fn the_hello_refuses_what_it_cannot_honour(h: Hello, tail: Seq<u8>)
    ensures
        h.version != VERSION ==> decoded_hello(encoded_hello(h) + tail) == Err::<
            Option<(Hello, int)>,
            FrameError,
        >(FrameError::BadVersion(h.version)),
        h.version == VERSION && h.incompat != 0 ==> decoded_hello(encoded_hello(h) + tail)
            == Err::<Option<(Hello, int)>, FrameError>(FrameError::Incompatible(h.incompat)),
{
    lemma_hello(h, tail);
}

/// What a chunk costs on the wire beyond its own bytes: the frame header, 44
/// bytes of fields, and a table entry beside the body of each sidecar.
pub proof fn the_chunk_overhead(f: FramedModel)
    requires
        frame_valid(f.frame),
        f.frame is Chunk,
    ensures
        encoded(f).len() == FRAME_HEADER_LEN + 44 + 12 * f.frame->Chunk_sidecars.len()
            + sidecar_bodies(f.frame->Chunk_sidecars).len() + (match f.frame->comp {
            Some(bytes) => bytes.len(),
            None => 0,
        }),
{
    lemma_header(f, Seq::empty());
    lemma_table_at(Seq::empty(), f.frame->Chunk_sidecars, Seq::empty());
    match f.frame {
        FrameModel::Chunk { seq, uncomp_len, comp_len, first_write_ms, last_write_ms, .. } => {
            lemma_le_len(seq as nat, 8);
            lemma_le_len(uncomp_len as nat, 8);
            lemma_le_len(comp_len as nat, 8);
            lemma_le_len(first_write_ms as nat, 8);
            lemma_le_len(last_write_ms as nat, 8);
        },
        _ => {},
    }
}

} // verus!
