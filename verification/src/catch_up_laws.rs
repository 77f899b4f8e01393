//! What holds of bringing a store level with a file.

use crate::entry::{concatenated, remainder, whole_lines};
use crate::follow::{
    a_restart_neither_loses_nor_duplicates, bare, decided, file_lines, later, left, lemma_times_push,
    marked, new_among, past_window, reading_in_pieces_changes_nothing, resynced, resynced_all, times,
    within_window, ResyncModel, TimedLine,
};
use vstd::prelude::*;

verus! {

/// The lines that reading a file in pieces hands out, and the tail it keeps.
pub open spec fn read_in_pieces(pieces: Seq<Seq<u8>>) -> (Seq<Seq<u8>>, Seq<u8>)
    decreases pieces.len(),
{
    if pieces.len() == 0 {
        (Seq::empty(), Seq::empty())
    } else {
        let (lines, pending) = read_in_pieces(pieces.drop_last());
        let all = pending + pieces.last();
        (lines + whole_lines(all), remainder(all))
    }
}

/// However a file is cut into pieces, reading it hands out the lines of the
/// whole file, and keeps what stands behind the last newline.
pub proof fn a_file_is_read_whole(pieces: Seq<Seq<u8>>)
    ensures
        read_in_pieces(pieces) == (
            whole_lines(concatenated(pieces)),
            remainder(concatenated(pieces)),
        ),
    decreases pieces.len(),
{
    if pieces.len() == 0 {
        assert(read_in_pieces(pieces).0 =~= whole_lines(concatenated(pieces)));
    } else {
        a_file_is_read_whole(pieces.drop_last());
        reading_in_pieces_changes_nothing(concatenated(pieces.drop_last()), pieces.last());
    }
}

/// Deciding on lines as they are read, a batch at a time, is deciding on all of
/// them at once.
pub proof fn batches_change_nothing(m: ResyncModel, a: Seq<TimedLine>, b: Seq<TimedLine>)
    ensures
        resynced_all(m, a + b).0 == resynced_all(resynced_all(m, a).0, b).0,
        decided(m, a + b) == decided(m, a) + decided(resynced_all(m, a).0, b),
    decreases b.len(),
{
    if b.len() == 0 {
        assert(a + b =~= a);
        assert(decided(m, a) + decided(resynced_all(m, a).0, b) =~= decided(m, a));
    } else {
        batches_change_nothing(m, a, b.drop_last());
        assert((a + b).drop_last() =~= a + b.drop_last());
        assert((a + b).last() == b.last());
        let mid = resynced_all(m, a).0;
        assert(decided(m, a + b) =~= decided(m, a) + decided(mid, b));
    }
}

/// How a file of some length is brought level with a store, by the file's first
/// time, the store's first and last write, and the lines that the store holds
/// from the file's first time on: nothing where none of it is read.
pub open spec fn begun(
    size: nat,
    start: u64,
    held: Option<(u64, u64)>,
    counts: Map<u64, u64>,
) -> Option<ResyncModel> {
    if size == 0 {
        None
    } else {
        match held {
            None => Some(past_window()),
            Some((first, last)) => if start < first {
                None
            } else if start <= last {
                Some(within_window(counts, last))
            } else {
                Some(past_window())
            },
        }
    }
}

/// The lines that a file adds to a store.
pub open spec fn added_by(
    content: Seq<u8>,
    live: bool,
    known: Seq<TimedLine>,
    begun: Option<ResyncModel>,
) -> Seq<Seq<u8>> {
    match begun {
        Some(m) => new_among(m, file_lines(content, live), known),
        None => Seq::empty(),
    }
}

/// The hashes of lines.
pub open spec fn hashes(hash: spec_fn(Seq<u8>) -> u64, lines: Seq<Seq<u8>>) -> Seq<u64> {
    Seq::new(lines.len(), |i: int| hash(lines[i]))
}

/// Whether lines are known by their hashes.
pub open spec fn known_by(
    hash: spec_fn(Seq<u8>) -> u64,
    lines: Seq<Seq<u8>>,
    known: Seq<TimedLine>,
) -> bool {
    known.len() == lines.len() && forall|i: int|
        0 <= i < lines.len() ==> (#[trigger] known[i]).line == hash(lines[i])
}

proof fn lemma_decided_len(m: ResyncModel, known: Seq<TimedLine>)
    ensures
        decided(m, known).len() == known.len(),
    decreases known.len(),
{
    if known.len() > 0 {
        lemma_decided_len(m, known.drop_last());
    }
}

proof fn lemma_marked_prefix(lines: Seq<Seq<u8>>, a: Seq<bool>, b: Seq<bool>)
    requires
        lines.len() <= a.len(),
        lines.len() <= b.len(),
        forall|i: int| 0 <= i < lines.len() ==> a[i] == b[i],
    ensures
        marked(lines, a) == marked(lines, b),
    decreases lines.len(),
{
    if lines.len() > 0 {
        lemma_marked_prefix(lines.drop_last(), a, b);
    }
}

/// The lines that are added are those that are new, and no others: their hashes
/// are the hashes that were found to be new.
pub proof fn the_new_lines_are_added(
    m: ResyncModel,
    hash: spec_fn(Seq<u8>) -> u64,
    lines: Seq<Seq<u8>>,
    known: Seq<TimedLine>,
)
    requires
        known_by(hash, lines, known),
    ensures
        hashes(hash, new_among(m, lines, known)) == resynced_all(m, known).1,
    decreases lines.len(),
{
    let new = new_among(m, lines, known);
    if lines.len() == 0 {
        assert(hashes(hash, new) =~= resynced_all(m, known).1);
    } else {
        let front = lines.drop_last();
        let keys = known.drop_last();
        assert forall|i: int| 0 <= i < front.len() implies (#[trigger] keys[i]).line == hash(
            front[i],
        ) by {
            assert(keys[i] == known[i]);
        }
        the_new_lines_are_added(m, hash, front, keys);
        lemma_decided_len(m, keys);
        lemma_decided_len(m, known);
        lemma_marked_prefix(front, decided(m, known), decided(m, keys));
        let n = lines.len() - 1;
        assert(known[n].line == hash(lines[n]));
        let before = new_among(m, front, keys);
        assert(new == (if decided(m, known)[n] {
            before.push(lines.last())
        } else {
            before
        }));
        assert(hashes(hash, before.push(lines.last())) =~= hashes(hash, before).push(
            hash(lines.last()),
        ));
    }
}

/// Of each line, what the store held and what was added is at least what the
/// file has.
proof fn lemma_balance(m: ResyncModel, known: Seq<TimedLine>, line: u64)
    ensures
        ({
            let (end, new) = resynced_all(m, known);
            times(bare(known), line) + left(end.counts, line) == times(new, line) + left(
                m.counts,
                line,
            )
        }),
    decreases known.len(),
{
    if known.len() > 0 {
        let front = known.drop_last();
        lemma_balance(m, front, line);
        let (before, new) = resynced_all(m, front);
        let last = known.last();
        assert(bare(known) =~= bare(front).push(last.line));
        lemma_times_push(bare(front), last.line, line);
        lemma_times_push(new, last.line, line);
        let (after, is_new) = resynced(before, last.line, last.at);
        if !is_new && last.line == line {
            assert(left(after.counts, line) == left(before.counts, line) - 1);
        } else {
            assert(left(after.counts, line) == left(before.counts, line));
        }
    }
}

proof fn lemma_none_left_out(lines: Seq<u64>)
    requires
        forall|line: u64| times(lines, line) == 0,
    ensures
        lines.len() == 0,
{
    if lines.len() > 0 {
        assert(times(lines, lines.last()) > 0);
    }
}

/// Reading a file again that the store has been brought level with adds
/// nothing, whether or not its last line ends in a newline. Between the two
/// readings neither has changed: the file has the lines that it had, and the
/// store holds the lines that it held and those that were added. The store's
/// last write is no earlier than any line of the file, because each of them is
/// in the store; and its first is where it was, if there was one.
pub proof fn reading_again_adds_nothing(
    content: Seq<u8>,
    live: bool,
    hash: spec_fn(Seq<u8>) -> u64,
    start: u64,
    held: Option<(u64, u64)>,
    counts: Map<u64, u64>,
    known: Seq<TimedLine>,
    held_then: (u64, u64),
    counts_then: Map<u64, u64>,
    known_then: Seq<TimedLine>,
)
    requires
        known_by(hash, file_lines(content, live), known),
        known_by(hash, file_lines(content, live), known_then),
        ({
            let first = begun(content.len(), start, held, counts);
            let added = added_by(content, live, known, first);
            forall|line: u64|
                #![trigger left(counts_then, line)]
                left(counts_then, line) >= times(hashes(hash, added), line) + (match first {
                    Some(m) => left(m.counts, line),
                    None => 0,
                })
        }),
        held matches Some(h) ==> held_then.0 == h.0,
        start <= held_then.1,
        forall|i: int|
            0 <= i < known_then.len() ==> !later((#[trigger] known_then[i]).at, held_then.1),
    ensures
        added_by(
            content,
            live,
            known_then,
            begun(content.len(), start, Some(held_then), counts_then),
        ) == Seq::<Seq<u8>>::empty(),
{
    let lines = file_lines(content, live);
    let first = begun(content.len(), start, held, counts);
    let again = begun(content.len(), start, Some(held_then), counts_then);
    if again is Some {
        let m = first->Some_0;
        let then = again->Some_0;
        let added = new_among(m, lines, known);
        the_new_lines_are_added(m, hash, lines, known);
        the_new_lines_are_added(then, hash, lines, known_then);
        let new = resynced_all(then, known_then).1;
        assert forall|line: u64| times(new, line) == 0 by {
            lemma_balance(m, known, line);
            assert(bare(known) =~= bare(known_then)) by {
                assert forall|i: int| 0 <= i < lines.len() implies bare(known)[i] == bare(
                    known_then,
                )[i] by {
                    assert(known[i].line == known_then[i].line);
                }
            }
            assert(left(counts_then, line) >= times(hashes(hash, added), line) + left(
                m.counts,
                line,
            ));
            a_restart_neither_loses_nor_duplicates(counts_then, held_then.1, known_then, line);
        }
        lemma_none_left_out(new);
        let second = new_among(then, lines, known_then);
        assert(hashes(hash, second).len() == second.len());
        assert(second =~= Seq::empty());
    }
}

} // verus!
