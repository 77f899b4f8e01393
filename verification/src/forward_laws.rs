//! What holds of the Forward receiver as a whole.

use crate::forward::{
    all_timed, blob_timed, bounded, decoded, due, fed, last_fragment, lemma_line_of, line_of, lined,
    not_due, of_others, option_at, partial, payload, seeded, timed, DecodeProblem, ForwardOpts,
    PartialModel, PendingModel, PARTIAL_MAX_BYTES, PARTIAL_MAX_OUTSTANDING,
};
use crate::json::flag_in;
use crate::msgpack::{first_value, text_at, MsgModel};
use vstd::prelude::*;

verus! {

// --------------------------------------------------------------- reassembly

/// What is let go at each of a run of records, and the lines left incomplete.
pub open spec fn fed_all(
    lines: Seq<PartialModel>,
    entries: Seq<(u64, MsgModel)>,
    key: Seq<char>,
) -> (Seq<PartialModel>, Seq<(u64, Seq<u8>)>)
    decreases entries.len(),
{
    if entries.len() == 0 {
        (lines, Seq::empty())
    } else {
        let (left, out) = fed_all(lines, entries.drop_last(), key);
        let (after, complete) = fed(left, entries.last().0, entries.last().1, key);
        match complete {
            None => (after, out),
            Some(line) => (after, out.push(line)),
        }
    }
}

/// The records' lines, one after another.
pub open spec fn run_together(entries: Seq<(u64, MsgModel)>, key: Seq<char>) -> Seq<u8>
    decreases entries.len(),
{
    if entries.len() == 0 {
        Seq::empty()
    } else {
        run_together(entries.drop_last(), key) + payload(entries.last().1, key)
    }
}

/// The incomplete line with an id, if there is one.
pub open spec fn kept(lines: Seq<PartialModel>, id: Seq<char>) -> Option<PartialModel> {
    if line_of(lines, id) < lines.len() {
        Some(lines[line_of(lines, id)])
    } else {
        None
    }
}

proof fn lemma_run_together_grows(entries: Seq<(u64, MsgModel)>, k: int, key: Seq<char>)
    requires
        0 <= k <= entries.len(),
    ensures
        run_together(entries.take(k), key).len() <= run_together(entries, key).len(),
    decreases entries.len(),
{
    if k == entries.len() {
        assert(entries.take(k) =~= entries);
    } else {
        assert(entries.drop_last().take(k) =~= entries.take(k));
        lemma_run_together_grows(entries.drop_last(), k, key);
    }
}

/// Before its last fragment a line is the fragments that came so far.
proof fn lemma_still_waiting(
    lines: Seq<PartialModel>,
    entries: Seq<(u64, MsgModel)>,
    id: Seq<char>,
    key: Seq<char>,
)
    requires
        line_of(lines, id) == lines.len(),
        lines.len() < PARTIAL_MAX_OUTSTANDING,
        entries.len() > 0,
        run_together(entries, key).len() <= PARTIAL_MAX_BYTES,
        forall|i: int|
            0 <= i < entries.len() ==> partial((#[trigger] entries[i]).1) && text_at(
                entries[i].1,
                "partial_id"@,
            ) == Some(id) && !last_fragment(entries[i].1),
    ensures
        fed_all(lines, entries, key) == (
            lines.push(
                PartialModel {
                    id,
                    first_time_ms: entries[0].0,
                    bytes: run_together(entries, key),
                },
            ),
            Seq::<(u64, Seq<u8>)>::empty(),
        ),
    decreases entries.len(),
{
    let front = entries.drop_last();
    assert(entries.last() == entries[entries.len() - 1]);
    assert(run_together(entries, key) == run_together(front, key) + payload(
        entries.last().1,
        key,
    ));
    if front.len() == 0 {
        assert(fed_all(lines, front, key) == (lines, Seq::<(u64, Seq<u8>)>::empty()));
        assert(run_together(entries, key) =~= payload(entries.last().1, key));
    } else {
        lemma_still_waiting(lines, front, id, key);
        let line = PartialModel {
            id,
            first_time_ms: entries[0].0,
            bytes: run_together(front, key),
        };
        lemma_waiting_line(lines, line);
        let next = PartialModel {
            id,
            first_time_ms: entries[0].0,
            bytes: run_together(entries, key),
        };
        assert(lines.push(line).update(lines.len() as int, next) =~= lines.push(next));
    }
}

/// A line that was put behind the others is the one with its id.
proof fn lemma_waiting_line(lines: Seq<PartialModel>, line: PartialModel)
    requires
        line_of(lines, line.id) == lines.len(),
    ensures
        line_of(lines.push(line), line.id) == lines.len(),
{
    lemma_line_of(lines, line.id, 0);
    lemma_line_of(lines.push(line), line.id, 0);
    let k = line_of(lines.push(line), line.id);
    if k < lines.len() {
        assert(lines[k].id == line.id);
    }
    assert(lines.push(line)[lines.len() as int].id == line.id);
}

/// A line that came in fragments comes out whole: one entry, with the
/// fragments in the order they arrived, the time of the first of them and a
/// newline at the end, and nothing of it stays behind.
pub proof fn a_split_line_comes_out_whole(
    lines: Seq<PartialModel>,
    entries: Seq<(u64, MsgModel)>,
    id: Seq<char>,
    key: Seq<char>,
)
    requires
        line_of(lines, id) == lines.len(),
        lines.len() < PARTIAL_MAX_OUTSTANDING,
        entries.len() > 0,
        run_together(entries, key).len() <= PARTIAL_MAX_BYTES,
        forall|i: int|
            0 <= i < entries.len() ==> partial((#[trigger] entries[i]).1) && text_at(
                entries[i].1,
                "partial_id"@,
            ) == Some(id) && last_fragment(entries[i].1) == (i == entries.len() - 1),
    ensures
        fed_all(lines, entries, key) == (
            lines,
            seq![(entries[0].0, lined(run_together(entries, key)))],
        ),
{
    let front = entries.drop_last();
    assert(entries.last() == entries[entries.len() - 1]);
    if front.len() == 0 {
        assert(fed_all(lines, front, key) == (lines, Seq::<(u64, Seq<u8>)>::empty()));
        assert(run_together(entries, key) =~= payload(entries.last().1, key));
    } else {
        lemma_run_together_grows(entries, front.len() as int, key);
        assert(entries.take(front.len() as int) =~= front);
        lemma_still_waiting(lines, front, id, key);
        let line = PartialModel {
            id,
            first_time_ms: entries[0].0,
            bytes: run_together(front, key),
        };
        lemma_waiting_line(lines, line);
        assert(lines.push(line).remove(lines.len() as int) =~= lines);
    }
    assert(Seq::<(u64, Seq<u8>)>::empty().push(
        (entries[0].0, lined(run_together(entries, key))),
    ) =~= seq![(entries[0].0, lined(run_together(entries, key)))]);
}

/// A line is touched by its own fragments only, whatever else arrives between
/// them.
pub proof fn lines_are_put_together_apart(
    lines: Seq<PartialModel>,
    time_ms: u64,
    record: MsgModel,
    key: Seq<char>,
    id: Seq<char>,
)
    requires
        bounded(lines),
        !partial(record) || text_at(record, "partial_id"@) != Some(id),
    ensures
        kept(fed(lines, time_ms, record, key).0, id) == kept(lines, id),
{
    let after = fed(lines, time_ms, record, key).0;
    if after != lines {
        let other = text_at(record, "partial_id"@)->Some_0;
        let m = line_of(lines, other);
        lemma_line_of(lines, other, 0);
        lemma_line_of(lines, id, 0);
        lemma_line_of(after, id, 0);
        let k = line_of(lines, id);
        let j = line_of(after, id);
        if k < lines.len() {
            if after.len() < lines.len() && k > m {
                assert(after[k - 1] == lines[k]);
                if j < k - 1 {
                    if j < m {
                        assert(after[j] == lines[j]);
                    } else {
                        assert(after[j] == lines[j + 1]);
                    }
                }
            } else {
                assert(after[k] == lines[k]);
                if j < k {
                    assert(after[j].id == lines[j].id);
                }
            }
        } else {
            if j < after.len() {
                if after.len() < lines.len() && j >= m {
                    assert(after[j] == lines[j + 1]);
                } else if j < lines.len() {
                    assert(after[j].id == lines[j].id);
                }
            }
        }
    }
}

// ----------------------------------------------------------------- decoding

/// The values that a blob holds, one after another: nothing where it is not
/// made of values.
pub open spec fn blob_values(b: Seq<u8>) -> Option<Seq<MsgModel>>
    decreases b.len(),
{
    if b.len() == 0 {
        Some(Seq::empty())
    } else {
        match first_value(b) {
            Ok((v, used)) if 0 < used <= b.len() => match blob_values(b.skip(used as int)) {
                Some(rest) => Some(seq![v] + rest),
                None => None,
            },
            _ => None,
        }
    }
}

/// Entries after entries.
proof fn lemma_timed_first(v: MsgModel, rest: Seq<MsgModel>, now: u64)
    ensures
        all_timed(seq![v] + rest, now) == (match timed(v, now) {
            Err(e) => Err::<Seq<(u64, MsgModel)>, DecodeProblem>(e),
            Ok(entry) => match all_timed(rest, now) {
                Err(e) => Err(e),
                Ok(entries) => Ok(seq![entry] + entries),
            },
        }),
    decreases rest.len(),
{
    let whole = seq![v] + rest;
    if rest.len() == 0 {
        assert(whole =~= seq![v]);
        assert(whole.drop_last() =~= Seq::empty());
        match timed(v, now) {
            Ok(entry) => {
                assert(Seq::empty().push(entry) =~= seq![entry] + Seq::empty());
            },
            Err(_) => {},
        }
    } else {
        assert(whole.drop_last() =~= seq![v] + rest.drop_last());
        assert(whole.last() == rest.last());
        lemma_timed_first(v, rest.drop_last(), now);
        match (timed(v, now), all_timed(rest.drop_last(), now), timed(rest.last(), now)) {
            (Ok(entry), Ok(entries), Ok(more)) => {
                assert((seq![entry] + entries).push(more) =~= seq![entry] + entries.push(more));
            },
            _ => {},
        }
    }
}

proof fn lemma_blob_timed(b: Seq<u8>, now: u64, read: Seq<(u64, MsgModel)>)
    requires
        blob_values(b) is Some,
    ensures
        blob_timed(b, now, read) == (match all_timed(blob_values(b)->Some_0, now) {
            Err(e) => Err::<Seq<(u64, MsgModel)>, DecodeProblem>(e),
            Ok(entries) => Ok(read + entries),
        }),
    decreases b.len(),
{
    if b.len() == 0 {
        assert(read + Seq::empty() =~= read);
    } else {
        let (v, used) = first_value(b)->Ok_0;
        let rest = b.skip(used as int);
        lemma_timed_first(v, blob_values(rest)->Some_0, now);
        match timed(v, now) {
            Ok(entry) => {
                lemma_blob_timed(rest, now, read.push(entry));
                match all_timed(blob_values(rest)->Some_0, now) {
                    Ok(entries) => {
                        assert(read.push(entry) + entries =~= read + (seq![entry] + entries));
                    },
                    Err(_) => {},
                }
            },
            Err(_) => {},
        }
    }
}

/// A batch says the same whether its entries are listed or packed into a
/// blob, as text or as bytes.
pub proof fn a_packed_batch_says_what_a_listed_one_says(
    tag: MsgModel,
    blob: Seq<u8>,
    options: Seq<MsgModel>,
    now: u64,
)
    requires
        blob_values(blob) is Some,
        option_at(seq![tag, MsgModel::Binary(blob)] + options, 2, "compressed"@) != Some("gzip"@),
    ensures
        decoded(MsgModel::Array(seq![tag, MsgModel::Binary(blob)] + options), now) == decoded(
            MsgModel::Array(seq![tag, MsgModel::Array(blob_values(blob)->Some_0)] + options),
            now,
        ),
        decoded(MsgModel::Array(seq![tag, MsgModel::Text(blob)] + options), now) == decoded(
            MsgModel::Array(seq![tag, MsgModel::Array(blob_values(blob)->Some_0)] + options),
            now,
        ),
{
    let bytes = seq![tag, MsgModel::Binary(blob)] + options;
    let text = seq![tag, MsgModel::Text(blob)] + options;
    let listed = seq![tag, MsgModel::Array(blob_values(blob)->Some_0)] + options;
    lemma_blob_timed(blob, now, Seq::empty());
    match all_timed(blob_values(blob)->Some_0, now) {
        Ok(entries) => {
            assert(Seq::empty() + entries =~= entries);
        },
        Err(_) => {},
    }
    assert(bytes[1] == MsgModel::Binary(blob));
    assert(text[1] == MsgModel::Text(blob));
    assert(listed[1] == MsgModel::Array(blob_values(blob)->Some_0));
    assert(bytes[0] == tag && text[0] == tag && listed[0] == tag);
    if options.len() > 0 {
        assert(bytes[2] == options[0]);
        assert(text[2] == options[0]);
        assert(listed[2] == options[0]);
    }
}

// --------------------------------------------------------- acknowledgements

/// Draining a store splits what waits: what is sent back was waiting for that
/// store, what stays waits for another, and nothing is lost or sent twice.
pub proof fn an_acknowledgement_is_sent_once(pending: Seq<PendingModel>, store: Seq<char>)
    ensures
        due(pending, store).to_multiset().add(not_due(pending, store).to_multiset())
            =~= pending.to_multiset(),
        forall|i: int|
            0 <= i < due(pending, store).len() ==> (#[trigger] due(pending, store)[i]).store
                == store,
        due(not_due(pending, store), store) == Seq::<PendingModel>::empty(),
    decreases pending.len(),
{
    broadcast use vstd::seq_lib::group_to_multiset_ensures;

    if pending.len() == 0 {
        assert(due(pending, store) =~= Seq::<PendingModel>::empty());
    } else {
        let front = pending.drop_last();
        an_acknowledgement_is_sent_once(front, store);
        assert(pending =~= front.push(pending.last()));
        if pending.last().store != store {
            let left = not_due(front, store);
            assert(left.push(pending.last()).drop_last() =~= left);
        }
    }
}

/// A connection that closes takes only its own waiting ids with it.
pub proof fn a_closed_connection_takes_only_its_own(pending: Seq<PendingModel>, conn_id: u64)
    ensures
        forall|i: int|
            0 <= i < of_others(pending, conn_id).len() ==> (#[trigger] of_others(
                pending,
                conn_id,
            )[i]).conn_id != conn_id,
        forall|p: PendingModel|
            p.conn_id != conn_id ==> of_others(pending, conn_id).to_multiset().count(p)
                == #[trigger] pending.to_multiset().count(p),
    decreases pending.len(),
{
    broadcast use vstd::seq_lib::group_to_multiset_ensures;

    if pending.len() > 0 {
        let front = pending.drop_last();
        a_closed_connection_takes_only_its_own(front, conn_id);
        assert(pending =~= front.push(pending.last()));
        let left = of_others(front, conn_id);
        assert forall|i: int| 0 <= i < of_others(pending, conn_id).len() implies (
        #[trigger] of_others(pending, conn_id)[i]).conn_id != conn_id by {
            if i < left.len() {
                assert(of_others(pending, conn_id)[i] == left[i]);
            }
        }
    }
}

/// Every store that the receiver makes has a write-ahead sidecar declared, so
/// that nothing it acknowledges waits for a chunk to be durable.
pub proof fn a_seeded_store_declares_its_sidecar(
    tag: Seq<char>,
    container_id: Option<Seq<char>>,
    container_name: Option<Seq<char>>,
    opts: ForwardOpts,
)
    ensures
        flag_in(seeded(tag, container_id, container_name, opts), "wal"@),
{
}

} // verus!
