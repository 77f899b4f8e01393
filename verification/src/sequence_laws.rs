//! What is picked out of a list stays in the order of the list.

use crate::cursor::{gapped_among, Consumer};
use crate::delivery_laws::entry_bytes;
use crate::feed::{not_reached, reached, AnswerRecord, Pending};
use crate::follow::marked;
use crate::follower::{
    all_covered, chosen, readable, uncovered_in, unreadable, Broken, Covered, Matched, Positions,
    Registered, StorePlace,
};
use crate::forest::ForestModel;
use crate::forests::named_by_path;
use crate::forward::{due, not_due, of_others, PendingModel};
use crate::interest::{chunk_at, retained, stands_in, RegistryEntry, Retaining, Stand};
use crate::interest_laws::{asks_to_retain, leaves_open, may_cover, registers};
use crate::registration::{joining, leaving};
use crate::sending::{closing, identified, nameless, sent_streams, staying, Source, Stream};
use vstd::prelude::*;

verus! {

/// Stores are shipped, and told of, in the order in which they were matched.
pub proof fn matched_stores_are_shipped_in_order(a: Seq<Matched>, b: Seq<Matched>)
    ensures
        identified(a + b) == identified(a) + identified(b),
        nameless(a + b) == nameless(a) + nameless(b),
    decreases b.len(),
{
    if b.len() == 0 {
        assert(a + b =~= a);
        assert(identified(a) + identified(b) =~= identified(a));
        assert(nameless(a) + nameless(b) =~= nameless(a));
    } else {
        matched_stores_are_shipped_in_order(a, b.drop_last());
        assert((a + b).drop_last() =~= a + b.drop_last());
        assert((a + b).last() == b.last());
        assert(identified(a + b) =~= identified(a) + identified(b));
        assert(nameless(a + b) =~= nameless(a) + nameless(b));
    }
}

/// Streams stay, and are closed, in the order in which they were opened.
pub proof fn streams_stay_and_close_in_order(a: Seq<Stream>, b: Seq<Stream>, sources: Seq<Source>)
    ensures
        staying(a + b, sources) == staying(a, sources) + staying(b, sources),
        closing(a + b, sources) == closing(a, sources) + closing(b, sources),
    decreases b.len(),
{
    if b.len() == 0 {
        assert(a + b =~= a);
        assert(staying(a, sources) + staying(b, sources) =~= staying(a, sources));
        assert(closing(a, sources) + closing(b, sources) =~= closing(a, sources));
    } else {
        streams_stay_and_close_in_order(a, b.drop_last(), sources);
        assert((a + b).drop_last() =~= a + b.drop_last());
        assert((a + b).last() == b.last());
        assert(staying(a + b, sources) =~= staying(a, sources) + staying(b, sources));
        assert(closing(a + b, sources) =~= closing(a, sources) + closing(b, sources));
    }
}

/// Streams are told of in the order in which they were opened.
pub proof fn streams_are_told_in_order(a: Seq<Stream>, b: Seq<Stream>)
    ensures
        sent_streams(a + b) == sent_streams(a) + sent_streams(b),
    decreases b.len(),
{
    if b.len() == 0 {
        assert(a + b =~= a);
        assert(sent_streams(a) + sent_streams(b) =~= sent_streams(a));
    } else {
        streams_are_told_in_order(a, b.drop_last());
        assert((a + b).drop_last() =~= a + b.drop_last());
        assert((a + b).last() == b.last());
        assert(sent_streams(a + b) =~= sent_streams(a) + sent_streams(b));
    }
}

/// Places that no store answers to are told of in the order in which they were
/// recorded.
pub proof fn places_without_a_store_are_told_in_order(
    a: Seq<StorePlace>,
    b: Seq<StorePlace>,
    covered: Seq<Covered>,
    on_disk: Seq<Seq<char>>,
)
    ensures
        uncovered_in(a + b, covered, on_disk) == uncovered_in(a, covered, on_disk)
            + uncovered_in(b, covered, on_disk),
    decreases b.len(),
{
    if b.len() == 0 {
        assert(a + b =~= a);
        assert(uncovered_in(a, covered, on_disk) + uncovered_in(b, covered, on_disk)
            =~= uncovered_in(a, covered, on_disk));
    } else {
        places_without_a_store_are_told_in_order(a, b.drop_last(), covered, on_disk);
        assert((a + b).drop_last() =~= a + b.drop_last());
        assert((a + b).last() == b.last());
        assert(uncovered_in(a + b, covered, on_disk) =~= uncovered_in(a, covered, on_disk)
            + uncovered_in(b, covered, on_disk));
    }
}

/// Stores are covered in the order in which they were matched.
pub proof fn stores_are_covered_in_order(a: Seq<Matched>, b: Seq<Matched>, p: Option<Positions>)
    ensures
        all_covered(a + b, p) == all_covered(a, p) + all_covered(b, p),
    decreases b.len(),
{
    if b.len() == 0 {
        assert(a + b =~= a);
        assert(all_covered(a, p) + all_covered(b, p) =~= all_covered(a, p));
    } else {
        stores_are_covered_in_order(a, b.drop_last(), p);
        assert((a + b).drop_last() =~= a + b.drop_last());
        assert((a + b).last() == b.last());
        assert(all_covered(a + b, p) =~= all_covered(a, p) + all_covered(b, p));
    }
}

/// Followers are listed, and told of, in the order in which they were read.
pub proof fn followers_are_read_in_order(
    a: Seq<Result<Registered, Broken>>,
    b: Seq<Result<Registered, Broken>>,
)
    ensures
        readable(a + b) == readable(a) + readable(b),
        unreadable(a + b) == unreadable(a) + unreadable(b),
    decreases b.len(),
{
    if b.len() == 0 {
        assert(a + b =~= a);
        assert(readable(a) + readable(b) =~= readable(a));
        assert(unreadable(a) + unreadable(b) =~= unreadable(a));
    } else {
        followers_are_read_in_order(a, b.drop_last());
        assert((a + b).drop_last() =~= a + b.drop_last());
        assert((a + b).last() == b.last());
        assert(readable(a + b) =~= readable(a) + readable(b));
        assert(unreadable(a + b) =~= unreadable(a) + unreadable(b));
    }
}

/// What is reached, and what is not, stays in the order in which it was passed
/// on.
pub proof fn entries_are_reached_in_order(a: Seq<Pending>, b: Seq<Pending>, offset: u64)
    ensures
        reached(a + b, offset) == reached(a, offset) + reached(b, offset),
        not_reached(a + b, offset) == not_reached(a, offset) + not_reached(b, offset),
    decreases b.len(),
{
    if b.len() == 0 {
        assert(a + b =~= a);
        assert(reached(a, offset) + reached(b, offset) =~= reached(a, offset));
        assert(not_reached(a, offset) + not_reached(b, offset) =~= not_reached(a, offset));
    } else {
        entries_are_reached_in_order(a, b.drop_last(), offset);
        assert((a + b).drop_last() =~= a + b.drop_last());
        assert((a + b).last() == b.last());
        assert(reached(a + b, offset) =~= reached(a, offset) + reached(b, offset));
        assert(not_reached(a + b, offset) =~= not_reached(a, offset) + not_reached(b, offset));
    }
}

/// Acknowledgements are sent, and wait, in the order in which they were asked
/// for.
pub proof fn acknowledgements_are_sent_in_order(
    a: Seq<PendingModel>,
    b: Seq<PendingModel>,
    store: Seq<char>,
    conn_id: u64,
)
    ensures
        due(a + b, store) == due(a, store) + due(b, store),
        not_due(a + b, store) == not_due(a, store) + not_due(b, store),
        of_others(a + b, conn_id) == of_others(a, conn_id) + of_others(b, conn_id),
    decreases b.len(),
{
    if b.len() == 0 {
        assert(a + b =~= a);
        assert(due(a, store) + due(b, store) =~= due(a, store));
        assert(not_due(a, store) + not_due(b, store) =~= not_due(a, store));
        assert(of_others(a, conn_id) + of_others(b, conn_id) =~= of_others(a, conn_id));
    } else {
        acknowledgements_are_sent_in_order(a, b.drop_last(), store, conn_id);
        assert((a + b).drop_last() =~= a + b.drop_last());
        assert((a + b).last() == b.last());
        assert(due(a + b, store) =~= due(a, store) + due(b, store));
        assert(not_due(a + b, store) =~= not_due(a, store) + not_due(b, store));
        assert(of_others(a + b, conn_id) =~= of_others(a, conn_id) + of_others(b, conn_id));
    }
}

/// Stores leave a selection in the order in which they were covered.
pub proof fn stores_leave_in_order(a: Seq<Covered>, b: Seq<Covered>, after: Seq<Matched>)
    ensures
        leaving(a + b, after) == leaving(a, after) + leaving(b, after),
    decreases b.len(),
{
    if b.len() == 0 {
        assert(a + b =~= a);
        assert(leaving(a, after) + leaving(b, after) =~= leaving(a, after));
    } else {
        stores_leave_in_order(a, b.drop_last(), after);
        assert((a + b).drop_last() =~= a + b.drop_last());
        assert((a + b).last() == b.last());
        assert(leaving(a + b, after) =~= leaving(a, after) + leaving(b, after));
    }
}

/// Stores join a selection in the order in which they are matched.
pub proof fn stores_join_in_order(a: Seq<Matched>, b: Seq<Matched>, before: Seq<Covered>)
    ensures
        joining(a + b, before) == joining(a, before) + joining(b, before),
    decreases b.len(),
{
    if b.len() == 0 {
        assert(a + b =~= a);
        assert(joining(a, before) + joining(b, before) =~= joining(a, before));
    } else {
        stores_join_in_order(a, b.drop_last(), before);
        assert((a + b).drop_last() =~= a + b.drop_last());
        assert((a + b).last() == b.last());
        assert(joining(a + b, before) =~= joining(a, before) + joining(b, before));
    }
}

/// Entries are passed on in the order in which they were answered.
pub proof fn entry_bytes_are_passed_on_in_order(a: Seq<AnswerRecord>, b: Seq<AnswerRecord>)
    ensures
        entry_bytes(a + b) == entry_bytes(a) + entry_bytes(b),
    decreases b.len(),
{
    if b.len() == 0 {
        assert(a + b =~= a);
        assert(entry_bytes(a) + entry_bytes(b) =~= entry_bytes(a));
    } else {
        entry_bytes_are_passed_on_in_order(a, b.drop_last());
        assert((a + b).drop_last() =~= a + b.drop_last());
        assert((a + b).last() == b.last());
        assert(entry_bytes(a + b) =~= entry_bytes(a) + entry_bytes(b));
    }
}

/// Followers that cover a store are chosen in the order in which they are held.
pub proof fn followers_are_chosen_in_order(held: Seq<Registered>, r: Registered, covers: Seq<bool>)
    requires
        held.len() < covers.len(),
    ensures
        covers[held.len() as int] ==> chosen(held.push(r), covers) == chosen(held, covers).push(r),
        !covers[held.len() as int] ==> chosen(held.push(r), covers) == chosen(held, covers),
        chosen(Seq::empty(), covers).len() == 0,
{
    assert(held.push(r).drop_last() =~= held);
}

/// Lines that are new are added in the order of the file, each once.
pub proof fn new_lines_are_added_in_order(lines: Seq<Seq<u8>>, line: Seq<u8>, marks: Seq<bool>)
    requires
        lines.len() < marks.len(),
    ensures
        marks[lines.len() as int] ==> marked(lines.push(line), marks) == marked(lines, marks).push(
            line,
        ),
        !marks[lines.len() as int] ==> marked(lines.push(line), marks) == marked(lines, marks),
        marked(Seq::empty(), marks).len() == 0,
{
    assert(lines.push(line).drop_last() =~= lines);
}

/// Consumers that were outrun are told of in the order in which they are listed,
/// each once.
pub proof fn the_outrun_are_told_in_order(v: Seq<Consumer>, n: int)
    requires
        0 <= n < v.len(),
    ensures
        v[n].standing.gap_chunks is Some ==> gapped_among(v, n + 1) == gapped_among(v, n).push(
            v[n]@,
        ),
        v[n].standing.gap_chunks is None ==> gapped_among(v, n + 1) == gapped_among(v, n),
        gapped_among(v, 0).len() == 0,
{
}

/// Directories of a list name forests in the order of the list, each once.
pub proof fn directories_are_named_in_order(parts: Seq<Seq<char>>, n: int)
    requires
        0 <= n < parts.len(),
    ensures
        parts[n].len() > 0 ==> named_by_path(parts, n + 1) == named_by_path(parts, n).push(
            (ForestModel { name: parts[n], dir: parts[n] }),
        ),
        parts[n].len() == 0 ==> named_by_path(parts, n + 1) == named_by_path(parts, n),
        named_by_path(parts, 0).len() == 0,
{
}

/// Retaining followers are listed in the order of the registry, each once, and
/// an entry that is none of them changes nothing.
pub proof fn retaining_followers_are_listed_in_order(entries: Seq<RegistryEntry>, e: RegistryEntry)
    requires
        retained(entries) is Some,
    ensures
        leaves_open(e) <==> retained(entries.push(e)) is None,
        !leaves_open(e) && !asks_to_retain(e) ==> retained(entries.push(e)) == retained(entries),
        !leaves_open(e) && asks_to_retain(e) ==> {
            let all = retained(entries.push(e))->Some_0;
            &&& all.len() == retained(entries)->Some_0.len() + 1
            &&& all.drop_last() == retained(entries)->Some_0
            &&& registers(e, all.last())
        },
{
    assert(entries.push(e).drop_last() =~= entries);
    if !leaves_open(e) && asks_to_retain(e) {
        let all = retained(entries.push(e))->Some_0;
        assert(all.drop_last() =~= retained(entries)->Some_0);
    }
}

/// Those who hold a store are listed in the order of the registry, each once.
pub proof fn holders_are_listed_in_order(
    all: Seq<Retaining>,
    r: Retaining,
    covers: Seq<bool>,
    id: Seq<char>,
)
    ensures
        may_cover(covers, all.len() as int) ==> stands_in(all.push(r), covers, Some(id))
            == stands_in(all, covers, Some(id)).push(
            (Stand { name: r.name@, at: chunk_at(r.at@, id) }),
        ),
        !may_cover(covers, all.len() as int) ==> stands_in(all.push(r), covers, Some(id))
            == stands_in(all, covers, Some(id)),
{
    assert(all.push(r).drop_last() =~= all);
}

} // verus!
