//! Carving a time window, or everything, out of a log into a new log.
//! Selected chunks are copied verbatim and their records rebased into a fresh
//! offset space, so the cost is proportional to the compressed size of the
//! window.
//!
//! An empty window still exports: an empty artifact whose manifest records the
//! requested window is evidence of absence, as opposed to the absence of
//! evidence that a missing file signals.

use crate::bark::{
    derived_map, derived_of, manifest_view, ms_rfc3339, time_or_number, ManifestModel,
};
use crate::format::{
    all_record_bytes, an_index_reads_back, header_bytes, id_view, index_of, lemma_header_fields,
    nothing_dropped, rings_header, ChunkRecord, Dropped, IndexError, RingsVersion,
};
use crate::json::{Fields, Json, JsonModel};
use crate::text::{decimal, number_text, text};
use vstd::prelude::*;
use vstd::string::StringExecFns;

verus! {

/// Why nothing is exported.
#[derive(Debug, Clone, Copy, PartialEq, Eq, Structural)]
pub enum ExportError {
    /// The window ends before it starts.
    Backwards,
    /// Nothing overlaps the window, and that was to be an error.
    Empty,
}

impl ExportError {
    /// What the error says.
    pub open spec fn said(self) -> Seq<char> {
        match self {
            ExportError::Backwards => "--from is after --to"@,
            ExportError::Empty => "no chunks overlap the requested window (--fail-on-empty)"@,
        }
    }

    /// What the error says.
    pub fn message(&self) -> (r: &'static str)
        ensures
            r@ == self.said(),
    {
        match self {
            ExportError::Backwards => "--from is after --to",
            ExportError::Empty => "no chunks overlap the requested window (--fail-on-empty)",
        }
    }
}

/// Whether a chunk's write window overlaps the asked one.
pub open spec fn overlaps(c: ChunkRecord, from: u64, to: u64) -> bool {
    c.last_write_ms >= from && c.first_write_ms <= to
}

/// The chunks among the first `n` that overlap the asked window, in order.
pub open spec fn overlapping(chunks: Seq<ChunkRecord>, from: u64, to: u64, n: int) -> Seq<
    ChunkRecord,
>
    decreases n,
{
    if n <= 0 {
        Seq::empty()
    } else if overlaps(chunks[n - 1], from, to) {
        overlapping(chunks, from, to, n - 1).push(chunks[n - 1])
    } else {
        overlapping(chunks, from, to, n - 1)
    }
}

pub open spec fn window_from(from: Option<u64>) -> u64 {
    match from {
        Some(ms) => ms,
        None => 0,
    }
}

pub open spec fn window_to(to: Option<u64>) -> u64 {
    match to {
        Some(ms) => ms,
        None => u64::MAX,
    }
}

/// The chunks to export: those that overlap the asked window, open where an
/// end was not given.
pub open spec fn selection(
    chunks: Seq<ChunkRecord>,
    from: Option<u64>,
    to: Option<u64>,
    fail_on_empty: bool,
) -> Result<Seq<ChunkRecord>, ExportError> {
    let picked = overlapping(chunks, window_from(from), window_to(to), chunks.len() as int);
    if window_from(from) > window_to(to) {
        Err(ExportError::Backwards)
    } else if picked.len() == 0 && fail_on_empty {
        Err(ExportError::Empty)
    } else {
        Ok(picked)
    }
}

/// The chunks to export.
pub fn select_chunks(
    chunks: &[ChunkRecord],
    from: Option<u64>,
    to: Option<u64>,
    fail_on_empty: bool,
) -> (r: Result<Vec<ChunkRecord>, ExportError>)
    ensures
        match r {
            Ok(picked) => selection(chunks@, from, to, fail_on_empty) == Ok::<
                Seq<ChunkRecord>,
                ExportError,
            >(picked@),
            Err(e) => selection(chunks@, from, to, fail_on_empty) == Err::<
                Seq<ChunkRecord>,
                ExportError,
            >(e),
        },
{
    let from_ms: u64 = match from {
        Some(ms) => ms,
        None => 0,
    };
    let to_ms: u64 = match to {
        Some(ms) => ms,
        None => u64::MAX,
    };
    if from_ms > to_ms {
        return Err(ExportError::Backwards);
    }
    let mut picked: Vec<ChunkRecord> = Vec::new();
    let mut i: usize = 0;
    while i < chunks.len()
        invariant
            i <= chunks@.len(),
            picked@ == overlapping(chunks@, from_ms, to_ms, i as int),
        decreases chunks@.len() - i,
    {
        if chunks[i].last_write_ms >= from_ms && chunks[i].first_write_ms <= to_ms {
            picked.push(chunks[i]);
        }
        i = i + 1;
    }
    if picked.len() == 0 && fail_on_empty {
        return Err(ExportError::Empty);
    }
    Ok(picked)
}

/// The uncompressed length of the first `n` chunks.
pub open spec fn uncomp_total(chunks: Seq<ChunkRecord>, n: int) -> nat
    decreases n,
{
    if n <= 0 {
        0
    } else {
        uncomp_total(chunks, n - 1) + chunks[n - 1].uncomp_len as nat
    }
}

/// The compressed length of the first `n` chunks.
pub open spec fn comp_total(chunks: Seq<ChunkRecord>, n: int) -> nat
    decreases n,
{
    if n <= 0 {
        0
    } else {
        comp_total(chunks, n - 1) + chunks[n - 1].comp_len as nat
    }
}

/// The records of a new log that holds the chunks one after another.
pub open spec fn rebased(chunks: Seq<ChunkRecord>) -> Seq<ChunkRecord> {
    Seq::new(
        chunks.len(),
        |i: int|
            ChunkRecord {
                uncomp_start: uncomp_total(chunks, i) as u64,
                comp_start: comp_total(chunks, i) as u64,
                ..chunks[i]
            },
    )
}

proof fn lemma_totals(chunks: Seq<ChunkRecord>, i: int, n: int)
    requires
        0 <= i <= n <= chunks.len(),
    ensures
        uncomp_total(chunks, i) <= uncomp_total(chunks, n),
        comp_total(chunks, i) <= comp_total(chunks, n),
    decreases n,
{
    if i < n {
        lemma_totals(chunks, i, n - 1);
    }
}

/// A new log's records, and its size.
pub struct Rebased {
    pub records: Vec<ChunkRecord>,
    pub uncomp_bytes: u64,
    pub comp_bytes: u64,
}

/// Rebase chunks into a fresh offset space, chunk by chunk: the selection may
/// be non-contiguous in the source.
pub fn rebase(chunks: &[ChunkRecord]) -> (r: Rebased)
    requires
        uncomp_total(chunks@, chunks@.len() as int) <= u64::MAX,
        comp_total(chunks@, chunks@.len() as int) <= u64::MAX,
    ensures
        r.records@ == rebased(chunks@),
        r.uncomp_bytes == uncomp_total(chunks@, chunks@.len() as int),
        r.comp_bytes == comp_total(chunks@, chunks@.len() as int),
{
    let mut records: Vec<ChunkRecord> = Vec::new();
    let mut uncomp_off: u64 = 0;
    let mut comp_off: u64 = 0;
    let mut i: usize = 0;
    assert(records@ =~= rebased(chunks@).take(0));
    while i < chunks.len()
        invariant
            i <= chunks@.len(),
            uncomp_total(chunks@, chunks@.len() as int) <= u64::MAX,
            comp_total(chunks@, chunks@.len() as int) <= u64::MAX,
            uncomp_off == uncomp_total(chunks@, i as int),
            comp_off == comp_total(chunks@, i as int),
            records@ == rebased(chunks@).take(i as int),
        decreases chunks@.len() - i,
    {
        let c = chunks[i];
        records.push(
            ChunkRecord {
                uncomp_start: uncomp_off,
                uncomp_len: c.uncomp_len,
                comp_start: comp_off,
                comp_len: c.comp_len,
                first_write_ms: c.first_write_ms,
                last_write_ms: c.last_write_ms,
                seq: c.seq,
            },
        );
        proof {
            lemma_totals(chunks@, i + 1, chunks@.len() as int);
            assert(uncomp_total(chunks@, i + 1) == uncomp_total(chunks@, i as int) + c.uncomp_len);
            assert(comp_total(chunks@, i + 1) == comp_total(chunks@, i as int) + c.comp_len);
            assert(records@ =~= rebased(chunks@).take(i + 1));
        }
        uncomp_off = uncomp_off + c.uncomp_len;
        comp_off = comp_off + c.comp_len;
        i = i + 1;
    }
    assert(records@ =~= rebased(chunks@));
    Rebased { records, uncomp_bytes: uncomp_off, comp_bytes: comp_off }
}

/// Chunks keep their bytes, their windows and their numbers, and stand one
/// after another from the start of the new log.
pub proof fn a_rebase_moves_chunks_and_changes_nothing_else(chunks: Seq<ChunkRecord>, i: int)
    requires
        0 <= i < chunks.len(),
        uncomp_total(chunks, chunks.len() as int) <= u64::MAX,
        comp_total(chunks, chunks.len() as int) <= u64::MAX,
    ensures
        ({
            let r = rebased(chunks);
            &&& r[i].uncomp_len == chunks[i].uncomp_len
            &&& r[i].comp_len == chunks[i].comp_len
            &&& r[i].first_write_ms == chunks[i].first_write_ms
            &&& r[i].last_write_ms == chunks[i].last_write_ms
            &&& r[i].seq == chunks[i].seq
            &&& i == 0 ==> r[i].comp_start == 0 && r[i].uncomp_start == 0
            &&& i > 0 ==> r[i].comp_start == r[i - 1].comp_start + r[i - 1].comp_len
                && r[i].uncomp_start == r[i - 1].uncomp_start + r[i - 1].uncomp_len
        }),
{
    lemma_totals(chunks, i, chunks.len() as int);
    if i > 0 {
        lemma_totals(chunks, i - 1, chunks.len() as int);
        assert(uncomp_total(chunks, i) == uncomp_total(chunks, i - 1) + chunks[i - 1].uncomp_len);
        assert(comp_total(chunks, i) == comp_total(chunks, i - 1) + chunks[i - 1].comp_len);
    }
}

/// The high-water mark of a new log: one past the last chunk it holds.
pub open spec fn next_number(records: Seq<ChunkRecord>) -> u64 {
    if records.len() == 0 {
        0
    } else {
        (records.last().seq + 1) as u64
    }
}

/// The index of a new log: a header that carries the log's own identity, then
/// the records.
pub fn index_bytes(records: &[ChunkRecord], id: Option<[u8; 16]>) -> (r: Vec<u8>)
    requires
        records@.len() > 0 ==> records@.last().seq < u64::MAX,
    ensures
        r@ == header_bytes(next_number(records@), nothing_dropped(), id_view(id))
            + all_record_bytes(records@),
        index_of(r@) == Ok::<_, IndexError>((records@, RingsVersion::V2)),
{
    let next: u64 = if records.len() == 0 {
        0
    } else {
        records[records.len() - 1].seq + 1
    };
    let h = rings_header(next, Dropped::default(), id);
    let ghost head = h@;
    let mut r: Vec<u8> = Vec::new();
    r.extend_from_slice(h.as_slice());
    let mut i: usize = 0;
    assert(records@.take(0) =~= Seq::empty());
    assert(r@ =~= head + all_record_bytes(records@.take(0)));
    while i < records.len()
        invariant
            i <= records@.len(),
            r@ == head + all_record_bytes(records@.take(i as int)),
        decreases records@.len() - i,
    {
        let b = records[i].to_bytes();
        r.extend_from_slice(b.as_slice());
        proof {
            let upto = records@.take(i + 1);
            assert(upto.drop_last() =~= records@.take(i as int));
            assert(upto.last() == records@[i as int]);
            assert(r@ =~= head + all_record_bytes(upto));
        }
        i = i + 1;
    }
    proof {
        assert(records@.take(i as int) =~= records@);
        lemma_header_fields(next_number(records@), nothing_dropped(), id_view(id));
        an_index_reads_back(head, records@, Seq::empty());
        assert(r@ =~= head + all_record_bytes(records@) + Seq::<u8>::empty());
    }
    r
}

/// The manifest of an exported log: derived from the source, and the window
/// that was asked for, which content can never state.
pub open spec fn exported_manifest(
    source: Option<ManifestModel>,
    from: Option<u64>,
    to: Option<u64>,
) -> ManifestModel {
    let base = derived_of(source, "export"@);
    let a = match from {
        Some(ms) => base.insert("window_from"@, JsonModel::Text(time_or_number(ms))),
        None => base,
    };
    match to {
        Some(ms) => a.insert("window_to"@, JsonModel::Text(time_or_number(ms))),
        None => a,
    }
}

/// The manifest of an exported log, before it is given its identity.
pub fn export_manifest(source: Option<&Fields>, from: Option<u64>, to: Option<u64>) -> (r: Fields)
    ensures
        r@ == exported_manifest(manifest_view(source), from, to),
{
    let mut map = derived_map(source, "export");
    if let Some(ms) = from {
        map.insert("window_from", Json::Text(ms_rfc3339(ms)));
    }
    if let Some(ms) = to {
        map.insert("window_to", Json::Text(ms_rfc3339(ms)));
    }
    map
}

/// The time, in seconds, that a bundle's members carry: the last write of what
/// they hold, else the time it is now.
pub fn bundle_mtime(selected: &[ChunkRecord], now_secs: u64) -> (r: u64)
    ensures
        r == (if selected@.len() > 0 {
            selected@.last().last_write_ms / 1000
        } else {
            now_secs
        }),
        selected@.len() > 0 ==> 1_000 * r <= selected@.last().last_write_ms < 1_000 * (r + 1),
        selected@.len() == 0 ==> r == now_secs,
{
    if selected.len() > 0 {
        selected[selected.len() - 1].last_write_ms / 1000
    } else {
        now_secs
    }
}

/// The name of a bundle's member.
pub fn member_name(stem: &str, ext: &str) -> (r: String)
    ensures
        r@ == stem@ + "."@ + ext@,
{
    text(stem).concat(".").concat(ext)
}

/// What an export did, for an operator: how many of how many chunks, how much,
/// and over which span (`first` and `last` as times).
pub fn export_note(
    selected: usize,
    total: usize,
    size: &Rebased,
    span: Option<(&str, &str)>,
    dest: &str,
    bundled: bool,
) -> (r: String)
    ensures
        r@ == (match span {
            Some((first, last)) => "timberfs: exported "@ + decimal(selected as nat) + " of "@
                + decimal(total as nat) + " chunk(s), "@ + decimal(size.uncomp_bytes as nat)
                + " bytes ("@ + decimal(size.comp_bytes as nat) + " compressed), spanning "@
                + first@ + " .. "@ + last@ + " -> "@ + dest@,
            None => "timberfs: exported 0 of "@ + decimal(total as nat)
                + " chunk(s) — empty window; the artifact attests it (--fail-on-empty to error instead) -> "@
                + dest@,
        }) + (if bundled {
            " (bundle)"@
        } else {
            ""@
        }),
{
    let head = match span {
        Some((first, last)) => text("timberfs: exported ").concat(
            number_text(selected as u64).as_str(),
        ).concat(" of ").concat(number_text(total as u64).as_str()).concat(" chunk(s), ").concat(
            number_text(size.uncomp_bytes).as_str(),
        ).concat(" bytes (").concat(number_text(size.comp_bytes).as_str()).concat(
            " compressed), spanning ",
        ).concat(first).concat(" .. ").concat(last).concat(" -> ").concat(dest),
        None => text("timberfs: exported 0 of ").concat(
            number_text(total as u64).as_str(),
        ).concat(
            " chunk(s) — empty window; the artifact attests it (--fail-on-empty to error instead) -> ",
        ).concat(dest),
    };
    head.concat(
        if bundled {
            " (bundle)"
        } else {
            ""
        },
    )
}

// ---------------------------------------------------------------- streaming

/// Where to read next, and how much.
#[derive(Debug, Clone, Copy, PartialEq, Eq, Structural)]
pub struct Piece {
    pub at: u64,
    pub len: usize,
}

/// Streams the selected chunks' compressed frames in order, so a bundle's data
/// is written without materializing it.
#[derive(Debug, Clone, Copy, PartialEq, Eq, Structural)]
pub struct ChunksReader {
    pub idx: usize,
    pub off: u64,
}

/// How many bytes of the chunks a reader has handed out.
pub open spec fn handed_out(chunks: Seq<ChunkRecord>, r: ChunksReader) -> int {
    comp_total(chunks, r.idx as int) + r.off
}

/// Whether a reader stands somewhere in the chunks.
pub open spec fn reader_ok(chunks: Seq<ChunkRecord>, r: ChunksReader) -> bool {
    r.idx <= chunks.len() && (r.idx == chunks.len() ==> r.off == 0) && (r.idx < chunks.len()
        ==> r.off <= chunks[r.idx as int].comp_len)
}

impl ChunksReader {
    /// A reader at the start.
    pub fn start() -> (r: ChunksReader)
        ensures
            r == (ChunksReader { idx: 0, off: 0 }),
    {
        ChunksReader { idx: 0, off: 0 }
    }

    /// Where to read next, into a buffer with room for `room` bytes: as much of
    /// the chunk under way as there is room for. `None` at the end.
    pub fn next_piece(&mut self, chunks: &[ChunkRecord], room: usize) -> (r: Option<Piece>)
        requires
            reader_ok(chunks@, *old(self)),
            forall|i: int|
                0 <= i < chunks@.len() ==> (#[trigger] chunks@[i]).comp_start + chunks@[i].comp_len
                    <= u64::MAX,
        ensures
            reader_ok(chunks@, *final(self)),
            handed_out(chunks@, *final(self)) == handed_out(chunks@, *old(self)),
            match r {
                Some(p) => {
                    let c = chunks@[final(self).idx as int];
                    &&& final(self).idx < chunks@.len()
                    &&& final(self).off < c.comp_len
                    &&& p.at == c.comp_start + final(self).off
                    &&& p.len == (if c.comp_len - final(self).off < room {
                        (c.comp_len - final(self).off) as usize
                    } else {
                        room
                    })
                },
                None => final(self).idx == chunks@.len(),
            },
    {
        while self.idx < chunks.len() && self.off == chunks[self.idx].comp_len
            invariant
                reader_ok(chunks@, *self),
                handed_out(chunks@, *self) == handed_out(chunks@, *old(self)),
            decreases chunks@.len() - self.idx,
        {
            assert(comp_total(chunks@, self.idx + 1) == comp_total(chunks@, self.idx as int)
                + chunks@[self.idx as int].comp_len);
            self.idx = self.idx + 1;
            self.off = 0;
        }
        if self.idx == chunks.len() {
            return None;
        }
        let c = chunks[self.idx];
        assert(c.comp_start + c.comp_len <= u64::MAX);
        let left: u64 = c.comp_len - self.off;
        let len: usize = if left < room as u64 {
            left as usize
        } else {
            room
        };
        Some(Piece { at: c.comp_start + self.off, len })
    }

    /// `n` bytes of the piece were read.
    pub fn advance(&mut self, chunks: &[ChunkRecord], n: u64)
        requires
            reader_ok(chunks@, *old(self)),
            old(self).idx < chunks@.len(),
            old(self).off + n <= chunks@[old(self).idx as int].comp_len,
        ensures
            reader_ok(chunks@, *final(self)),
            handed_out(chunks@, *final(self)) == handed_out(chunks@, *old(self)) + n,
            final(self).idx == old(self).idx,
    {
        self.off = self.off + n;
    }
}

/// Whether a chunk was being written at a time.
pub open spec fn written_at(c: ChunkRecord, t: u64) -> bool {
    c.first_write_ms <= t <= c.last_write_ms
}

/// Whether a time was asked for: an end that was not given leaves the window
/// open.
pub open spec fn asked_for(t: u64, from: Option<u64>, to: Option<u64>) -> bool {
    (from is Some ==> from->Some_0 <= t) && (to is Some ==> t <= to->Some_0)
}

/// Whether a chunk was being written at some time that was asked for.
pub open spec fn written_when_asked(c: ChunkRecord, from: Option<u64>, to: Option<u64>) -> bool {
    exists|t: u64| #[trigger] written_at(c, t) && asked_for(t, from, to)
}

proof fn lemma_overlap_is_a_common_time(c: ChunkRecord, from: Option<u64>, to: Option<u64>)
    requires
        c.first_write_ms <= c.last_write_ms,
        from is Some && to is Some ==> from->Some_0 <= to->Some_0,
    ensures
        overlaps(c, window_from(from), window_to(to)) <==> written_when_asked(c, from, to),
{
    if overlaps(c, window_from(from), window_to(to)) {
        let t: u64 = if from is Some && from->Some_0 > c.first_write_ms {
            from->Some_0
        } else {
            c.first_write_ms
        };
        assert(written_at(c, t) && asked_for(t, from, to));
    }
}

proof fn lemma_picked(
    chunks: Seq<ChunkRecord>,
    from: Option<u64>,
    to: Option<u64>,
    n: int,
) -> (at: Seq<int>)
    requires
        0 <= n <= chunks.len(),
        forall|i: int|
            0 <= i < chunks.len() ==> (#[trigger] chunks[i]).first_write_ms
                <= chunks[i].last_write_ms,
        from is Some && to is Some ==> from->Some_0 <= to->Some_0,
    ensures
        ({
            let picked = overlapping(chunks, window_from(from), window_to(to), n);
            &&& at.len() == picked.len()
            &&& forall|k: int|
                0 <= k < at.len() ==> 0 <= #[trigger] at[k] < n && picked[k] == chunks[at[k]]
            &&& forall|j: int, k: int| 0 <= j < k < at.len() ==> at[j] < at[k]
            &&& forall|i: int|
                0 <= i < n ==> (at.contains(i)
                    <==> written_when_asked(#[trigger] chunks[i], from, to))
        }),
    decreases n,
{
    if n == 0 {
        Seq::empty()
    } else {
        let before = lemma_picked(chunks, from, to, n - 1);
        let c = chunks[n - 1];
        assert(c.first_write_ms <= c.last_write_ms);
        lemma_overlap_is_a_common_time(c, from, to);
        let at = if overlaps(c, window_from(from), window_to(to)) {
            before.push(n - 1)
        } else {
            before
        };
        assert forall|i: int| 0 <= i < n implies (at.contains(i) <==> written_when_asked(
            #[trigger] chunks[i],
            from,
            to,
        )) by {
            if at.contains(i) {
                let k = choose|k: int| 0 <= k < at.len() && at[k] == i;
                if k < before.len() {
                    assert(before[k] == i);
                    assert(before.contains(i));
                }
            }
            if before.contains(i) {
                let k = choose|k: int| 0 <= k < before.len() && before[k] == i;
                assert(at[k] == i);
            }
            if i == n - 1 && overlaps(c, window_from(from), window_to(to)) {
                assert(at[before.len() as int] == i);
            }
            if i == n - 1 && before.contains(i) {
                let k = choose|k: int| 0 <= k < before.len() && before[k] == i;
                assert(before[k] < n - 1);
            }
        }
        at
    }
}

/// An export holds exactly the chunks that were being written at some time of
/// the asked window, each once and in the order of the log: no write inside the
/// window is missing from it. `at` says which chunk of the log each one is.
pub proof fn what_was_written_in_the_window_is_exported(
    chunks: Seq<ChunkRecord>,
    from: Option<u64>,
    to: Option<u64>,
    fail_on_empty: bool,
    picked: Seq<ChunkRecord>,
) -> (at: Seq<int>)
    requires
        forall|i: int|
            0 <= i < chunks.len() ==> (#[trigger] chunks[i]).first_write_ms
                <= chunks[i].last_write_ms,
        selection(chunks, from, to, fail_on_empty) == Ok::<Seq<ChunkRecord>, ExportError>(picked),
    ensures
        at.len() == picked.len(),
        forall|k: int|
            0 <= k < at.len() ==> 0 <= #[trigger] at[k] < chunks.len() && picked[k]
                == chunks[at[k]],
        forall|j: int, k: int| 0 <= j < k < at.len() ==> at[j] < at[k],
        forall|i: int|
            0 <= i < chunks.len() ==> (at.contains(i) <==> written_when_asked(
                #[trigger] chunks[i],
                from,
                to,
            )),
{
    lemma_picked(chunks, from, to, chunks.len() as int)
}

/// An export is refused only where the window ends before it begins, or where
/// nothing was written in it and that was to be an error; and it is refused
/// there.
pub proof fn an_export_is_refused_only_for_its_window(
    chunks: Seq<ChunkRecord>,
    from: Option<u64>,
    to: Option<u64>,
    fail_on_empty: bool,
)
    requires
        forall|i: int|
            0 <= i < chunks.len() ==> (#[trigger] chunks[i]).first_write_ms
                <= chunks[i].last_write_ms,
    ensures
        ({
            let backwards = from is Some && to is Some && from->Some_0 > to->Some_0;
            let nothing = forall|i: int|
                0 <= i < chunks.len() ==> !written_when_asked(#[trigger] chunks[i], from, to);
            let r = selection(chunks, from, to, fail_on_empty);
            &&& r == Err::<Seq<ChunkRecord>, ExportError>(ExportError::Backwards) <==> backwards
            &&& r == Err::<Seq<ChunkRecord>, ExportError>(ExportError::Empty) <==> !backwards
                && fail_on_empty && nothing
        }),
{
    if !(from is Some && to is Some && from->Some_0 > to->Some_0) {
        let at = lemma_picked(chunks, from, to, chunks.len() as int);
        if at.len() > 0 {
            assert(at.contains(at[0]));
            assert(written_when_asked(chunks[at[0]], from, to));
        } else {
            assert forall|i: int| 0 <= i < chunks.len() implies !written_when_asked(
                #[trigger] chunks[i],
                from,
                to,
            ) by {
                assert(!at.contains(i));
            }
        }
    }
}

/// A reader that has come to its end has handed out as many bytes as the
/// chunks hold.
pub proof fn a_finished_reader_handed_out_everything(chunks: Seq<ChunkRecord>, r: ChunksReader)
    requires
        reader_ok(chunks, r),
        r.idx == chunks.len(),
    ensures
        handed_out(chunks, r) == comp_total(chunks, chunks.len() as int),
{
}

} // verus!
