//! What keeping a place in a store comes to.

use crate::bark::ManifestModel;
use crate::cursor::{
    advanced, after_entry, already_delivered, anchor_of, consumer_of, consumer_rank, consumer_ranks,
    consumers_among, cursor_fields, cursor_of, cursors_of, first_reaching, gapped_among,
    largest_backlog, lemma_leading_below, newest, numbered, resolved, resume_of, stands,
    unreadable_among, Consumer, ConsumerModel, CursorModel, Found, ResumeModel, Standing,
};
use crate::format::ChunkRecord;
use crate::json::{text_in, whole_in, JsonModel};
use crate::order::before;
use crate::paths::join;
use crate::rank::{ahead, lemma_place, place};
use vstd::prelude::*;

verus! {

/// The cursor after a run of entries of one chunk.
pub open spec fn advanced_by(c: CursorModel, chunk: Option<u64>, wl: u64, count: nat) -> CursorModel
    decreases count,
{
    if count == 0 {
        c
    } else {
        advanced(advanced_by(c, chunk, wl, (count - 1) as nat), chunk, wl)
    }
}

/// Whether two cursors are one consumer's, in one store.
pub open spec fn same_owner(a: CursorModel, b: CursorModel) -> bool {
    a.consumer == b.consumer && a.store == b.store && a.path == b.path
}

/// A cursor counts: after any number of entries of a chunk it stands in that
/// chunk, behind that many more of its entries, with that many more delivered,
/// and says when it was last moved. It stays the cursor of its consumer and of
/// its store.
pub proof fn a_cursor_counts_what_it_delivered(c: CursorModel, seq: u64, wl: u64, count: nat)
    requires
        count > 0,
        c.delivered + count <= u64::MAX,
        c.n + count <= u64::MAX,
    ensures
        advanced_by(c, Some(seq), wl, count).seq == Some(seq),
        advanced_by(c, Some(seq), wl, count).n == (if c.seq == Some(seq) {
            c.n + count
        } else {
            count as int
        }),
        advanced_by(c, Some(seq), wl, count).delivered == c.delivered + count,
        advanced_by(c, Some(seq), wl, count).wl == wl,
        advanced_by(c, None, wl, count).delivered == c.delivered + count,
        advanced_by(c, None, wl, count).wl == wl,
        advanced_by(c, None, wl, count).seq == c.seq,
        advanced_by(c, None, wl, count).n == c.n,
        forall|chunk: Option<u64>| same_owner(#[trigger] advanced_by(c, chunk, wl, count), c),
    decreases count,
{
    reveal_with_fuel(advanced_by, 2);
    if count > 1 {
        a_cursor_counts_what_it_delivered(c, seq, wl, (count - 1) as nat);
    }
    assert forall|chunk: Option<u64>| same_owner(
        #[trigger] advanced_by(c, chunk, wl, count),
        c,
    ) by {
        let less = advanced_by(c, chunk, wl, (count - 1) as nat);
        assert(same_owner(less, c));
        assert(advanced_by(c, chunk, wl, count) == advanced(less, chunk, wl));
    }
}

proof fn lemma_reaching(records: Seq<ChunkRecord>, wl: u64)
    ensures
        0 <= first_reaching(records, wl) <= records.len(),
        forall|i: int|
            0 <= i < first_reaching(records, wl) ==> (#[trigger] records[i]).last_write_ms < wl,
        first_reaching(records, wl) < records.len() ==> records[first_reaching(
            records,
            wl,
        )].last_write_ms >= wl,
    decreases records.len(),
{
    if records.len() > 0 && records[0].last_write_ms < wl {
        let t = records.drop_first();
        lemma_reaching(t, wl);
        assert forall|i: int| 0 <= i < first_reaching(records, wl) implies (
        #[trigger] records[i]).last_write_ms < wl by {
            if i > 0 {
                assert(records[i] == t[i - 1]);
            }
        }
    }
}

/// A cursor that stands at a time alone is given the first chunk that was
/// written at that time or later, from its first entry; where every chunk is
/// older, the chunk behind the last; and in an empty store it is left as it is.
/// A cursor that has a chunk keeps it, and nothing else of a cursor changes.
pub proof fn a_time_becomes_the_first_chunk_that_reaches_it(
    c: CursorModel,
    records: Seq<ChunkRecord>,
    k: int,
)
    requires
        records.len() > 0 ==> records.last().seq < u64::MAX,
    ensures
        c.seq is Some || records.len() == 0 ==> resolved(c, records) == c,
        c.seq is None && 0 <= k < records.len() && records[k].last_write_ms >= c.wl
            && (forall|i: int|
            0 <= i < k ==> (#[trigger] records[i]).last_write_ms < c.wl) ==> resolved(c, records)
            == (CursorModel { seq: Some(records[k].seq), n: 0, ..c }),
        c.seq is None && records.len() > 0 && (forall|i: int|
            0 <= i < records.len() ==> (#[trigger] records[i]).last_write_ms < c.wl) ==> resolved(
            c,
            records,
        ) == (CursorModel { seq: Some((records.last().seq + 1) as u64), n: 0, ..c }),
{
    lemma_reaching(records, c.wl);
    let f = first_reaching(records, c.wl);
    if 0 <= k < records.len() && f < k {
        assert(records[f].last_write_ms >= c.wl);
    }
}

/// What is left to skip behind a number of entries.
pub open spec fn resumed(r: ResumeModel, chunks: Seq<Option<u64>>, k: int) -> ResumeModel
    decreases k,
{
    if k <= 0 {
        r
    } else {
        after_entry(resumed(r, chunks, k - 1), chunks[k - 1])
    }
}

/// How many of the first entries are of a chunk.
pub open spec fn of_chunk(chunks: Seq<Option<u64>>, seq: u64, k: int) -> nat
    decreases k,
{
    if k <= 0 {
        0
    } else {
        of_chunk(chunks, seq, k - 1) + (if chunks[k - 1] == Some(seq) {
            1nat
        } else {
            0nat
        })
    }
}

/// Whether entries come chunk by chunk.
pub open spec fn chunk_by_chunk(chunks: Seq<Option<u64>>) -> bool {
    &&& forall|i: int| 0 <= i < chunks.len() ==> (#[trigger] chunks[i]) is Some
    &&& forall|i: int, j: int|
        0 <= i < j < chunks.len() ==> (#[trigger] chunks[i])->Some_0 <= (
        #[trigger] chunks[j])->Some_0
}

/// Reading a store again from a cursor skips exactly what the cursor counts as
/// delivered: every entry of the chunks before its own, as many of its own as
/// it counts, and no other. What was skipped is counted.
pub proof fn a_resumed_reader_skips_exactly_what_was_delivered(
    c: CursorModel,
    chunks: Seq<Option<u64>>,
    k: int,
)
    requires
        chunk_by_chunk(chunks),
        0 <= k < chunks.len(),
        chunks.len() <= u64::MAX,
    ensures
        c.seq is None ==> !already_delivered(resumed(resume_of(Some(c)), chunks, k), chunks[k]),
        !already_delivered(resumed(resume_of(None), chunks, k), chunks[k]),
        c.seq is Some ==> (already_delivered(resumed(resume_of(Some(c)), chunks, k), chunks[k])
            <==> chunks[k]->Some_0 < c.seq->Some_0 || (chunks[k] == c.seq && of_chunk(
            chunks,
            c.seq->Some_0,
            k,
        ) < c.n)),
        already_delivered(resumed(resume_of(Some(c)), chunks, k), chunks[k]) ==> resumed(
            resume_of(Some(c)),
            chunks,
            k + 1,
        ).skipped == k + 1,
{
    lemma_resumed(c, chunks, k);
    lemma_resumed(c, chunks, k + 1);
    lemma_unplaced(resume_of(None), chunks, k);
    if c.seq is None {
        lemma_unplaced(resume_of(Some(c)), chunks, k);
    }
}

proof fn lemma_unplaced(r: ResumeModel, chunks: Seq<Option<u64>>, k: int)
    requires
        r.at is None,
        0 <= k,
    ensures
        resumed(r, chunks, k).at is None,
    decreases k,
{
    if k > 0 {
        lemma_unplaced(r, chunks, k - 1);
    }
}

proof fn lemma_resumed(c: CursorModel, chunks: Seq<Option<u64>>, k: int)
    requires
        chunk_by_chunk(chunks),
        0 <= k <= chunks.len(),
        chunks.len() <= u64::MAX,
    ensures
        of_chunk(chunks, c.seq->Some_0, k) <= k,
        resumed(resume_of(Some(c)), chunks, k).at == resume_of(Some(c)).at,
        resumed(resume_of(Some(c)), chunks, k).skipped <= k,
        !resumed(resume_of(Some(c)), chunks, k).done ==> resumed(
            resume_of(Some(c)),
            chunks,
            k,
        ).skipped == k,
        c.seq is Some && !resumed(resume_of(Some(c)), chunks, k).done ==> resumed(
            resume_of(Some(c)),
            chunks,
            k,
        ).seen_in_chunk == of_chunk(chunks, c.seq->Some_0, k) && of_chunk(
            chunks,
            c.seq->Some_0,
            k,
        ) <= c.n,
        c.seq is Some && resumed(resume_of(Some(c)), chunks, k).done ==> k > 0 && chunks[k
            - 1]->Some_0 >= c.seq->Some_0 && (chunks[k - 1] == c.seq ==> of_chunk(
            chunks,
            c.seq->Some_0,
            k,
        ) >= c.n),
    decreases k,
{
    if k > 0 {
        lemma_resumed(c, chunks, k - 1);
        if k > 1 {
            assert(chunks[k - 2]->Some_0 <= chunks[k - 1]->Some_0);
        }
    }
}

/// Whether chunks lie one behind another.
pub open spec fn contiguous(records: Seq<ChunkRecord>) -> bool {
    forall|i: int|
        0 < i < records.len() ==> (#[trigger] records[i]).comp_start == records[i - 1].comp_start
            + records[i - 1].comp_len
}

/// How many stored bytes the chunks numbered `seq` and up hold.
pub open spec fn bytes_from(records: Seq<ChunkRecord>, seq: u64) -> nat
    decreases records.len(),
{
    if records.len() == 0 {
        0
    } else {
        bytes_from(records.drop_last(), seq) + (if records.last().seq >= seq {
            records.last().comp_len as nat
        } else {
            0nat
        })
    }
}

/// How many chunks are numbered `seq` and up.
pub open spec fn chunks_from(records: Seq<ChunkRecord>, seq: u64) -> nat
    decreases records.len(),
{
    if records.len() == 0 {
        0
    } else {
        chunks_from(records.drop_last(), seq) + (if records.last().seq >= seq {
            1nat
        } else {
            0nat
        })
    }
}

proof fn lemma_from(records: Seq<ChunkRecord>, seq: u64, k: int)
    requires
        contiguous(records),
        0 <= k <= records.len(),
        forall|i: int| 0 <= i < k ==> (#[trigger] records[i]).seq < seq,
        forall|i: int| k <= i < records.len() ==> (#[trigger] records[i]).seq >= seq,
    ensures
        chunks_from(records, seq) == records.len() - k,
        k < records.len() ==> bytes_from(records, seq) == records.last().comp_start
            + records.last().comp_len - records[k].comp_start,
        k == records.len() ==> bytes_from(records, seq) == 0,
    decreases records.len(),
{
    if records.len() > 0 {
        let front = records.drop_last();
        assert forall|i: int| 0 < i < front.len() implies (#[trigger] front[i]).comp_start
            == front[i - 1].comp_start + front[i - 1].comp_len by {
            assert(records[i] == front[i]);
            assert(records[i - 1] == front[i - 1]);
        }
        assert forall|i: int| 0 <= i < front.len() implies #[trigger] front[i] == records[i] by {}
        if k < records.len() {
            lemma_from(front, seq, k);
            if front.len() > k {
                assert(records[front.len() as int].comp_start == front.last().comp_start
                    + front.last().comp_len);
            }
        } else {
            lemma_from(front, seq, k - 1);
        }
    }
}

/// Where a position stands is told by what is still unread: the chunks numbered
/// from its own on, the bytes that they hold, how much earlier than the newest
/// write it is, and how many chunks left before they were read. A position with
/// no chunk has everything before it.
pub proof fn a_position_stands_before_what_it_has_not_read(
    seq: Option<u64>,
    wl: u64,
    records: Seq<ChunkRecord>,
)
    requires
        numbered(records),
        contiguous(records),
        records.len() <= usize::MAX,
        records.len() > 0 ==> records.last().comp_start + records.last().comp_len <= u64::MAX,
    ensures
        ({
            let s = stands(seq, wl, records);
            let from = if seq is Some {
                seq->Some_0
            } else {
                0u64
            };
            &&& s.behind_chunks == chunks_from(records, from)
            &&& s.behind_bytes == bytes_from(records, from)
            &&& s.consumed_chunks + s.behind_chunks == records.len()
            &&& forall|i: int|
                0 <= i < records.len() ==> (#[trigger] records[i]).last_write_ms <= wl
                    + s.behind_ms
            &&& s.behind_ms > 0 ==> exists|i: int|
                0 <= i < records.len() && (#[trigger] records[i]).last_write_ms == wl + s.behind_ms
            &&& s.gap_chunks is Some <==> seq is Some && records.len() > 0 && seq->Some_0
                < records[0].seq
            &&& s.gap_chunks is Some ==> seq->Some_0 + s.gap_chunks->Some_0 == records[0].seq
        }),
{
    let from = if seq is Some {
        seq->Some_0
    } else {
        0u64
    };
    let k = crate::cursor::consumed(records, seq);
    lemma_leading_below(records, from);
    assert forall|i: int| k <= i < records.len() implies (#[trigger] records[i]).seq >= from by {
        if k < i {
            assert(records[k].seq < records[i].seq);
        }
    }
    lemma_from(records, from, k);
    lemma_newest(records);
}

proof fn lemma_newest(records: Seq<ChunkRecord>)
    ensures
        forall|i: int|
            0 <= i < records.len() ==> (#[trigger] records[i]).last_write_ms <= newest(records),
        newest(records) > 0 ==> exists|i: int|
            0 <= i < records.len() && (#[trigger] records[i]).last_write_ms == newest(records),
    decreases records.len(),
{
    if records.len() > 0 {
        let front = records.drop_last();
        lemma_newest(front);
        assert forall|i: int| 0 <= i < front.len() implies #[trigger] front[i] == records[i] by {}
        assert forall|i: int| 0 <= i < records.len() implies (#[trigger] records[i]).last_write_ms
            <= newest(records) by {
            if i < front.len() {
                assert(front[i] == records[i]);
            }
        }
        if newest(records) == records.last().last_write_ms {
            assert(records[records.len() - 1].last_write_ms == newest(records));
        } else {
            let i = choose|i: int|
                0 <= i < front.len() && (#[trigger] front[i]).last_write_ms == newest(front);
            assert(records[i].last_write_ms == newest(records));
        }
    }
}

/// Whether a file that was found is this consumer: a cursor in the store, under
/// the name it says or else that of its file, standing where its place stands.
pub open spec fn is_consumer(
    f: Found,
    anchor: Seq<char>,
    records: Seq<ChunkRecord>,
    c: ConsumerModel,
) -> bool {
    &&& f.outcome is Ok
    &&& f.outcome->Ok_0 is Some
    &&& f.outcome->Ok_0->Some_0.store@ == anchor
    &&& c.cursor == f.outcome->Ok_0->Some_0@
    &&& c.path == f.path@
    &&& c.name == (if c.cursor.consumer.len() > 0 {
        c.cursor.consumer
    } else {
        f.stem@
    })
    &&& c.standing == stands(c.cursor.seq, c.cursor.wl, records)
}

/// Whether one of the first files is this consumer.
pub open spec fn was_found(
    found: Seq<Found>,
    anchor: Seq<char>,
    records: Seq<ChunkRecord>,
    n: int,
    c: ConsumerModel,
) -> bool {
    exists|i: int| 0 <= i < n && is_consumer(#[trigger] found[i], anchor, records, c)
}

/// A survey of a store lists every consumer of that store and no one else, the
/// one with the most to read first, and those with as much by name.
pub proof fn a_survey_lists_every_consumer_of_the_store(
    found: Seq<Found>,
    anchor: Seq<char>,
    records: Seq<ChunkRecord>,
)
    ensures
        ({
            let all = consumers_among(found, anchor, records, found.len() as int);
            &&& forall|c: ConsumerModel|
                #![trigger all.contains(c)]
                all.contains(c) <==> was_found(found, anchor, records, found.len() as int, c)
            &&& forall|i: int, j: int|
                0 <= i < j < all.len() ==> {
                    let a = #[trigger] all[i];
                    let b = #[trigger] all[j];
                    a.standing.behind_bytes > b.standing.behind_bytes || (
                    a.standing.behind_bytes == b.standing.behind_bytes && !before(b.name, a.name))
                }
        }),
{
    let all = consumers_among(found, anchor, records, found.len() as int);
    assert forall|c: ConsumerModel|
        #![trigger all.contains(c)]
        all.contains(c) <==> was_found(found, anchor, records, found.len() as int, c) by {
        lemma_listed(found, anchor, records, found.len() as int, c);
    }
    crate::cursor::a_survey_is_ranked(found, anchor, records, found.len() as int);
    let ranks = consumer_ranks(all);
    assert forall|i: int, j: int| 0 <= i < j < all.len() implies {
        let a = #[trigger] all[i];
        let b = #[trigger] all[j];
        a.standing.behind_bytes > b.standing.behind_bytes || (a.standing.behind_bytes
            == b.standing.behind_bytes && !before(b.name, a.name))
    } by {
        assert(!ahead(ranks[j], ranks[i]));
    }
}

proof fn lemma_listed(
    found: Seq<Found>,
    anchor: Seq<char>,
    records: Seq<ChunkRecord>,
    n: int,
    c: ConsumerModel,
)
    requires
        0 <= n <= found.len(),
    ensures
        consumers_among(found, anchor, records, n).contains(c) <==> was_found(
            found,
            anchor,
            records,
            n,
            c,
        ),
    decreases n,
{
    if n > 0 {
        lemma_listed(found, anchor, records, n - 1, c);
        let done = consumers_among(found, anchor, records, n - 1);
        let f = found[n - 1];
        match consumer_of(f, anchor, records) {
            Some(x) => {
                let p = place(consumer_ranks(done), consumer_rank(x));
                lemma_place(consumer_ranks(done), consumer_rank(x));
                lemma_insert(done, p, x, c);
                assert(is_consumer(f, anchor, records, c) <==> c == x);
            },
            None => {
                assert(!is_consumer(f, anchor, records, c));
            },
        }
        if is_consumer(f, anchor, records, c) {
            assert(was_found(found, anchor, records, n, c));
        }
    }
}

proof fn lemma_insert<T>(v: Seq<T>, k: int, x: T, t: T)
    requires
        0 <= k <= v.len(),
    ensures
        v.insert(k, x).contains(t) <==> v.contains(t) || t == x,
{
    let now = v.insert(k, x);
    if v.contains(t) {
        let i = choose|i: int| 0 <= i < v.len() && v[i] == t;
        assert(now[if i < k {
            i
        } else {
            i + 1
        }] == t);
    }
    assert(now[k] == x);
    if now.contains(t) {
        let i = choose|i: int| 0 <= i < now.len() && now[i] == t;
        if i != k {
            assert(v[if i < k {
                i
            } else {
                i - 1
            }] == t);
        }
    }
}

/// Each file that could not be read counts once, and no other counts.
pub proof fn each_unreadable_file_counts_once(found: Seq<Found>, n: int)
    requires
        0 <= n < found.len(),
    ensures
        unreadable_among(found, 0) == 0,
        found[n].outcome is Err ==> unreadable_among(found, n + 1) == unreadable_among(found, n)
            + 1,
        found[n].outcome is Ok ==> unreadable_among(found, n + 1) == unreadable_among(found, n),
{
}

/// The largest backlog is one that a consumer has, and none has a larger.
pub proof fn the_largest_backlog_is_one_and_none_is_larger(v: Seq<Consumer>, n: int)
    requires
        0 <= n <= v.len(),
    ensures
        forall|i: int|
            0 <= i < n ==> (#[trigger] v[i]).standing.behind_bytes <= largest_backlog(v, n),
        largest_backlog(v, n) > 0 ==> exists|i: int|
            0 <= i < n && (#[trigger] v[i]).standing.behind_bytes == largest_backlog(v, n),
    decreases n,
{
    if n > 0 {
        the_largest_backlog_is_one_and_none_is_larger(v, n - 1);
        if largest_backlog(v, n) == v[n - 1].standing.behind_bytes {
        } else {
            let i = choose|i: int|
                0 <= i < n - 1 && (#[trigger] v[i]).standing.behind_bytes == largest_backlog(
                    v,
                    n - 1,
                );
            assert(v[i].standing.behind_bytes == largest_backlog(v, n));
        }
    }
}

/// The consumers that lost chunks are exactly those that retention outran.
pub proof fn the_gapped_are_those_that_retention_outran(v: Seq<Consumer>, n: int, c: ConsumerModel)
    requires
        0 <= n <= v.len(),
    ensures
        gapped_among(v, n).contains(c) <==> exists|i: int|
            0 <= i < n && (#[trigger] v[i])@ == c && v[i].standing.gap_chunks is Some,
    decreases n,
{
    if n > 0 {
        the_gapped_are_those_that_retention_outran(v, n - 1, c);
        let front = gapped_among(v, n - 1);
        lemma_insert(front, front.len() as int, v[n - 1]@, c);
        assert(front.insert(front.len() as int, v[n - 1]@) =~= front.push(v[n - 1]@));
        if exists|i: int|
            0 <= i < n && (#[trigger] v[i])@ == c && v[i].standing.gap_chunks is Some {
            let i = choose|i: int|
                0 <= i < n && (#[trigger] v[i])@ == c && v[i].standing.gap_chunks is Some;
            if i == n - 1 {
                assert(gapped_among(v, n).contains(c));
            }
        }
    }
}

/// Two stores share an anchor only where they share an identity: a store that
/// has one is known by it wherever it lies, and a store that has none by where
/// it lies.
pub proof fn a_store_is_known_by_its_identity_else_by_its_path(
    m: Option<ManifestModel>,
    a: Seq<char>,
    x: Seq<char>,
    b: Seq<char>,
    y: Seq<char>,
)
    ensures
        m is Some && text_in(m->Some_0, "id"@) is Some ==> anchor_of(m, a, x) == anchor_of(m, b, y)
            && Some(anchor_of(m, a, x)) == text_in(m->Some_0, "id"@),
        m is None || text_in(m->Some_0, "id"@) is None ==> (anchor_of(m, a, x) == anchor_of(m, b, y)
            <==> join(a, x) == join(b, y)) && anchor_of(m, a, x).skip(5) == join(a, x),
{
    reveal_strlit("path:");
    assert(("path:"@ + join(a, x)).skip(5) =~= join(a, x));
    assert(("path:"@ + join(b, y)).skip(5) =~= join(b, y));
}

/// A store has a place for its cursors exactly where it names one.
pub proof fn cursors_lie_where_the_store_says(m: Option<ManifestModel>)
    ensures
        cursors_of(m) is Some <==> m is Some && text_in(m->Some_0, "cursors"@) is Some && text_in(
            m->Some_0,
            "cursors"@,
        )->Some_0.len() > 0,
        cursors_of(m) is Some ==> cursors_of(m) == text_in(m->Some_0, "cursors"@),
{
}

/// The lag says `caught up` only where nothing is unread, and a gap before
/// anything else.
pub proof fn a_lag_never_hides_what_is_unread(s: Standing, distance: Seq<char>)
    ensures
        s.gap_chunks is Some ==> s.lag(distance) == "GAP"@,
        s.lag(distance) == "caught up"@ ==> s.behind_chunks == 0,
        s.gap_chunks is None && s.behind_chunks == 0 ==> s.lag(distance) == "caught up"@,
        s.gap_chunks is None && s.behind_chunks > 0 && s.behind_ms > 0 ==> s.lag(distance)
            == distance + " behind"@,
        s.gap_chunks is None && s.behind_chunks > 0 && s.behind_ms == 0 ==> s.lag(distance)
            == "at the live edge"@,
{
    reveal_strlit("GAP");
    reveal_strlit("caught up");
    reveal_strlit("at the live edge");
    reveal_strlit(" behind");
    let d = distance + " behind"@;
    assert(d.len() > 0 ==> d.last() == 'd');
    assert("caught up"@.last() == 'p');
    assert("GAP"@.len() == 3);
    assert("caught up"@.len() == 9);
    assert("at the live edge"@.len() == 16);
}

/// Everything that a cursor says stands under a name of its own, and a cursor is
/// read from those names: what is missing is nothing, and without a store it is
/// no cursor.
pub proof fn a_cursor_is_written_under_its_own_names(
    c: CursorModel,
    updated: Seq<char>,
    m: ManifestModel,
)
    ensures
        ({
            let f = cursor_fields(c, updated);
            &&& f["consumer"@] == JsonModel::Text(c.consumer)
            &&& f["store"@] == JsonModel::Text(c.store)
            &&& f["path"@] == JsonModel::Text(c.path)
            &&& c.seq is Some ==> f["seq"@] == JsonModel::Whole(c.seq->Some_0)
            &&& c.seq is None ==> f["seq"@] is Null
            &&& f["n"@] == JsonModel::Whole(c.n)
            &&& f["wl"@] == JsonModel::Whole(c.wl)
            &&& f["delivered"@] == JsonModel::Whole(c.delivered)
            &&& f["updated"@] == JsonModel::Text(updated)
        }),
        cursor_of(m) is Some <==> text_in(m, "store"@) is Some && text_in(m, "store"@)->Some_0.len()
            > 0,
        cursor_of(m) is Some ==> {
            let d = cursor_of(m)->Some_0;
            &&& Some(d.store) == text_in(m, "store"@)
            &&& d.seq == whole_in(m, "seq"@)
            &&& d.n == (if whole_in(m, "n"@) is Some {
                whole_in(m, "n"@)->Some_0
            } else {
                0
            })
            &&& d.wl == (if whole_in(m, "wl"@) is Some {
                whole_in(m, "wl"@)->Some_0
            } else {
                0
            })
            &&& d.delivered == (if whole_in(m, "delivered"@) is Some {
                whole_in(m, "delivered"@)->Some_0
            } else {
                0
            })
            &&& text_in(m, "consumer"@) is Some ==> Some(d.consumer) == text_in(m, "consumer"@)
            &&& text_in(m, "consumer"@) is None ==> d.consumer.len() == 0
            &&& text_in(m, "path"@) is Some ==> Some(d.path) == text_in(m, "path"@)
            &&& text_in(m, "path"@) is None ==> d.path.len() == 0
        },
{
    reveal_strlit("consumer");
    reveal_strlit("store");
    reveal_strlit("path");
    reveal_strlit("seq");
    reveal_strlit("n");
    reveal_strlit("wl");
    reveal_strlit("delivered");
    reveal_strlit("updated");
    assert("delivered"@.len() == 9 && "consumer"@.len() == 8 && "updated"@.len() == 7
        && "store"@.len() == 5 && "path"@.len() == 4 && "seq"@.len() == 3 && "wl"@.len() == 2
        && "n"@.len() == 1);
}

/// What is behind spans from the first chunk that is not read to the end of the
/// last, whatever lies between; and the chunks that are read are those before
/// it.
pub proof fn what_is_behind_spans_to_the_end(
    seq: u64,
    wl: u64,
    records: Seq<ChunkRecord>,
    k: int,
)
    requires
        0 <= k <= records.len() <= usize::MAX,
        records.len() > 0 ==> records.last().comp_start + records.last().comp_len <= u64::MAX,
        forall|i: int| 0 <= i < k ==> (#[trigger] records[i]).seq < seq,
        k < records.len() ==> records[k].seq >= seq,
    ensures
        stands(Some(seq), wl, records).consumed_chunks == k,
        stands(Some(seq), wl, records).behind_chunks == records.len() - k,
        k == records.len() ==> stands(Some(seq), wl, records).behind_bytes == 0,
        k < records.len() && records[k].comp_start <= records.last().comp_start
            + records.last().comp_len ==> records[k].comp_start + stands(
            Some(seq),
            wl,
            records,
        ).behind_bytes == records.last().comp_start + records.last().comp_len,
        stands(None, wl, records).consumed_chunks == 0,
        stands(None, wl, records).gap_chunks is None,
{
    lemma_leading_below(records, seq);
    let n = crate::cursor::leading_below(records, seq);
    if n < k {
        assert(records[n].seq < seq);
    }
    if k < n {
        assert(records[k].seq < seq);
    }
}

} // verus!
