//! What replicating stores over one connection comes to.

use crate::bark::ManifestModel;
use crate::follower::{place_in, Matched, Positions};
use crate::frame::Run;
use crate::frames::{destination, identity_under, landing, IntakeOpts};
use crate::json::text_in;
use crate::lists::lemma_push;
use crate::paths::{is_absolute, join, same_path};
use crate::sending::{
    all_bytes, all_chunks, all_held, closing, identified, last_held, nameless, place_due, place_of,
    resumes, sent_streams, staying, stream_index, told, Source, SourceModel, Stream, StreamSent,
};
use crate::uuid::uuid_of;
use vstd::prelude::*;

verus! {

/// After a turn a stream stands at the first chunk that neither it nor the turn
/// has behind it: where it was, or right behind the last chunk looked at,
/// whichever is later, and nowhere else.
pub proof fn a_turn_moves_right_behind_what_it_looked_at(resume: u64, seen: Option<u64>)
    ensures
        resumes(resume, seen) >= resume,
        seen is Some ==> resumes(resume, seen) >= seen->Some_0 + 1,
        resumes(resume, seen) == resume || (seen is Some && resumes(resume, seen) == seen->Some_0
            + 1),
{
}

/// What the far end holds last is the greatest number that one of its runs ends
/// at: nothing where it holds nothing.
pub proof fn the_last_held_is_the_greatest_end(runs: Seq<Run>)
    ensures
        last_held(runs) is None <==> runs.len() == 0,
        forall|i: int|
            0 <= i < runs.len() ==> (#[trigger] runs[i]).end <= last_held(runs)->Some_0,
        runs.len() > 0 ==> exists|i: int|
            0 <= i < runs.len() && (#[trigger] runs[i]).end == last_held(runs)->Some_0,
    decreases runs.len(),
{
    if runs.len() > 0 {
        let front = runs.drop_last();
        the_last_held_is_the_greatest_end(front);
        assert forall|i: int| 0 <= i < runs.len() implies (#[trigger] runs[i]).end <= last_held(
            runs,
        )->Some_0 by {
            if i < front.len() {
                assert(front[i] == runs[i]);
            }
        }
        if last_held(runs)->Some_0 == runs.last().end {
            assert(runs[runs.len() - 1].end == last_held(runs)->Some_0);
        } else {
            let i = choose|i: int|
                0 <= i < front.len() && (#[trigger] front[i]).end == last_held(front)->Some_0;
            assert(runs[i] == front[i]);
        }
    }
}

/// A place is recorded exactly where the far end holds the last chunk that was
/// sent and nothing later, and that says something new: something was delivered
/// since, or the chunk recorded is another. What is recorded is where that
/// chunk ends, when it was last written, and how much was delivered since.
pub proof fn a_place_is_recorded_once_all_that_was_sent_is_held(s: Stream, held: Positions)
    ensures
        place_due(s, held) <==> {
            &&& s.last_sent is Some
            &&& s.acked@.len() > 0
            &&& forall|i: int|
                0 <= i < s.acked@.len() ==> (#[trigger] s.acked@[i]).end <= s.last_sent->Some_0.seq
            &&& exists|i: int|
                0 <= i < s.acked@.len() && (#[trigger] s.acked@[i]).end == s.last_sent->Some_0.seq
            &&& s.undeclared > 0 || place_in(held.at@, s.store@) is None || place_in(
                held.at@,
                s.store@,
            )->Some_0.chunk != Some(s.last_sent->Some_0.seq)
        },
        place_due(s, held) ==> place_of(s).id == s.store@ && place_of(s).path == s.path@
            && place_of(s).chunk == Some(s.last_sent->Some_0.seq) && place_of(s).offset
            == s.last_sent->Some_0.offset && place_of(s).wl == s.last_sent->Some_0.last_write_ms
            && place_of(s).delivered == s.undeclared,
{
    the_last_held_is_the_greatest_end(s.acked@);
    if s.acked@.len() > 0 && s.last_sent is Some {
        let i = choose|i: int|
            0 <= i < s.acked@.len() && (#[trigger] s.acked@[i]).end == last_held(
                s.acked@,
            )->Some_0;
        assert(s.acked@[i].end == last_held(s.acked@)->Some_0);
    }
}

/// A stream whose store is still selected stays as it is, and any other is
/// closed: what stays are exactly the streams of selected stores, and what is
/// closed are exactly the numbers of the others.
pub proof fn a_stream_is_closed_exactly_where_its_store_has_left(
    live: Seq<Stream>,
    sources: Seq<Source>,
)
    ensures
        forall|s: Stream|
            staying(live, sources).contains(s) <==> live.contains(s) && exists|j: int|
                0 <= j < sources.len() && (#[trigger] sources[j]).id@ == s.store@,
        forall|w: u32|
            closing(live, sources).contains(w) <==> exists|i: int|
                0 <= i < live.len() && (#[trigger] live[i]).wire == w && forall|j: int|
                    0 <= j < sources.len() ==> (#[trigger] sources[j]).id@ != live[i].store@,
    decreases live.len(),
{
    if live.len() > 0 {
        let front = live.drop_last();
        let last = live.last();
        a_stream_is_closed_exactly_where_its_store_has_left(front, sources);
        let kept = staying(front, sources);
        let shut = closing(front, sources);
        let selected = exists|j: int|
            0 <= j < sources.len() && (#[trigger] sources[j]).id@ == last.store@;
        assert forall|s: Stream| staying(live, sources).contains(s) <==> live.contains(s)
            && exists|j: int| 0 <= j < sources.len() && (#[trigger] sources[j]).id@ == s.store@ by {
            lemma_push(kept, last, s);
            lemma_push(front, last, s);
            assert(front.push(last) =~= live);
        }
        assert forall|w: u32| closing(live, sources).contains(w) <==> exists|i: int|
            0 <= i < live.len() && (#[trigger] live[i]).wire == w && forall|j: int|
                0 <= j < sources.len() ==> (#[trigger] sources[j]).id@ != live[i].store@ by {
            lemma_push(shut, last.wire, w);
            if shut.contains(w) {
                let i = choose|i: int|
                    0 <= i < front.len() && (#[trigger] front[i]).wire == w && forall|j: int|
                        0 <= j < sources.len() ==> (#[trigger] sources[j]).id@ != front[i].store@;
                assert(live[i] == front[i]);
            }
            if exists|i: int|
                0 <= i < live.len() && (#[trigger] live[i]).wire == w && forall|j: int|
                    0 <= j < sources.len() ==> (#[trigger] sources[j]).id@ != live[i].store@ {
                let i = choose|i: int|
                    0 <= i < live.len() && (#[trigger] live[i]).wire == w && forall|j: int|
                        0 <= j < sources.len() ==> (#[trigger] sources[j]).id@ != live[i].store@;
                if i < front.len() {
                    assert(front[i] == live[i]);
                }
            }
            if !selected && w == last.wire {
                assert(live[live.len() - 1].wire == w);
            }
        }
    }
}

/// Whether a store that was matched is shipped as this: under the identity that
/// it has, from where it is.
pub open spec fn shipped_as(m: Matched, s: SourceModel) -> bool {
    m.id is Some && m.id->Some_0@ == s.id && join(m.dir@, m.name@) == s.path
}

/// Whether what is shipped was matched.
pub open spec fn was_matched(v: Seq<Matched>, s: SourceModel) -> bool {
    exists|i: int| 0 <= i < v.len() && #[trigger] shipped_as(v[i], s)
}

/// Every store that was matched is shipped or told of, and never both: the ones
/// with an identity are shipped under it, from where they are, and the others
/// are told of by where they are; each list keeps their order.
pub proof fn a_matched_store_is_shipped_or_told_of(v: Seq<Matched>)
    ensures
        identified(v).len() + nameless(v).len() == v.len(),
        forall|i: int|
            0 <= i < v.len() && (#[trigger] v[i]).id is Some ==> identified(v).contains(
                SourceModel { id: v[i].id->Some_0@, path: join(v[i].dir@, v[i].name@) },
            ),
        forall|i: int|
            0 <= i < v.len() && (#[trigger] v[i]).id is None ==> nameless(v).contains(
                join(v[i].dir@, v[i].name@),
            ),
        forall|k: int|
            0 <= k < identified(v).len() ==> #[trigger] was_matched(v, identified(v)[k]),
    decreases v.len(),
{
    if v.len() > 0 {
        let front = v.drop_last();
        let last = v.last();
        a_matched_store_is_shipped_or_told_of(front);
        let a = identified(front);
        let b = nameless(front);
        let path = join(last.dir@, last.name@);
        assert forall|i: int| 0 <= i < v.len() && (#[trigger] v[i]).id is Some implies identified(
            v,
        ).contains(SourceModel { id: v[i].id->Some_0@, path: join(v[i].dir@, v[i].name@) }) by {
            let m = SourceModel { id: v[i].id->Some_0@, path: join(v[i].dir@, v[i].name@) };
            if i < front.len() {
                assert(front[i] == v[i]);
                assert(a.contains(m));
            }
            if last.id is Some {
                lemma_push(a, SourceModel { id: last.id->Some_0@, path }, m);
            }
        }
        assert forall|i: int| 0 <= i < v.len() && (#[trigger] v[i]).id is None implies nameless(
            v,
        ).contains(join(v[i].dir@, v[i].name@)) by {
            if i < front.len() {
                assert(front[i] == v[i]);
            }
            if last.id is None {
                lemma_push(b, path, join(v[i].dir@, v[i].name@));
            }
        }
        assert forall|k: int| 0 <= k < identified(v).len() implies #[trigger] was_matched(
            v,
            identified(v)[k],
        ) by {
            if k < a.len() {
                assert(identified(v)[k] == a[k]);
                assert(was_matched(front, a[k]));
                let i = choose|i: int|
                    0 <= i < front.len() && #[trigger] shipped_as(front[i], a[k]);
                assert(v[i] == front[i]);
                assert(shipped_as(v[i], identified(v)[k]));
            } else {
                assert(v[v.len() - 1] == last);
                assert(shipped_as(v[v.len() - 1], identified(v)[k]));
            }
        }
    } else {
        assert(identified(v) =~= Seq::empty());
    }
}

/// What was sent is summed stream by stream: nothing comes to nothing, one
/// stream to its own, and two lists to the sum of each.
pub proof fn what_was_sent_adds_up(a: Seq<StreamSent>, b: Seq<StreamSent>, s: StreamSent)
    ensures
        all_chunks(Seq::empty()) == 0 && all_bytes(Seq::empty()) == 0 && all_held(Seq::empty())
            == 0,
        all_chunks(seq![s]) == s.chunks,
        all_bytes(seq![s]) == s.comp_bytes,
        all_held(seq![s]) == s.skipped_already_held,
        all_chunks(a + b) == all_chunks(a) + all_chunks(b),
        all_bytes(a + b) == all_bytes(a) + all_bytes(b),
        all_held(a + b) == all_held(a) + all_held(b),
    decreases b.len(),
{
    reveal_with_fuel(all_chunks, 2);
    reveal_with_fuel(all_bytes, 2);
    reveal_with_fuel(all_held, 2);
    assert(seq![s].drop_last() =~= Seq::empty());
    assert(seq![s].last() == s);
    if b.len() == 0 {
        assert(a + b =~= a);
    } else {
        what_was_sent_adds_up(a, b.drop_last(), s);
        assert((a + b).drop_last() =~= a + b.drop_last());
        assert((a + b).last() == b.last());
    }
}

/// What is told at the end is each stream as it stood, in order.
pub proof fn each_stream_is_told_as_it_stood(live: Seq<Stream>)
    ensures
        sent_streams(live).len() == live.len(),
        forall|i: int|
            0 <= i < live.len() ==> {
                let s = #[trigger] sent_streams(live)[i];
                &&& s.store == live[i].store
                &&& s.path == live[i].path
                &&& s.chunks == live[i].chunks
                &&& s.comp_bytes == live[i].comp_bytes
                &&& s.accepted_at == live[i].accepted_at
                &&& s.acked == live[i].acked
                &&& s.skipped_already_held == live[i].skipped
            },
    decreases live.len(),
{
    if live.len() > 0 {
        let front = live.drop_last();
        each_stream_is_told_as_it_stood(front);
        assert forall|i: int| 0 <= i < live.len() implies {
            let s = #[trigger] sent_streams(live)[i];
            &&& s.store == live[i].store
            &&& s.path == live[i].path
            &&& s.chunks == live[i].chunks
            &&& s.comp_bytes == live[i].comp_bytes
            &&& s.accepted_at == live[i].accepted_at
            &&& s.acked == live[i].acked
            &&& s.skipped_already_held == live[i].skipped
        } by {
            if i < front.len() {
                assert(sent_streams(live)[i] == sent_streams(front)[i]);
                assert(front[i] == live[i]);
            }
        }
    }
}

/// A stream goes to the one store that says it came from there, else to the one
/// store that has its identity; where the first of these that there are any of
/// are several, to none.
pub proof fn a_stream_goes_to_the_one_store_that_answers(
    into: Seq<char>,
    id: Seq<char>,
    by_origin: Seq<Seq<char>>,
    by_id: Seq<Seq<char>>,
)
    ensures
        destination(into, id, by_origin, by_id) is Err <==> by_origin.len() > 1 || (by_origin.len()
            == 0 && by_id.len() > 1),
        destination(into, id, by_origin, by_id) == Ok::<Option<Seq<char>>, Seq<char>>(None)
            <==> by_origin.len() == 0 && by_id.len() == 0,
        forall|d: Seq<char>|
            destination(into, id, by_origin, by_id) == Ok::<Option<Seq<char>>, Seq<char>>(Some(d))
                ==> (if by_origin.len() > 0 {
                by_origin == seq![d]
            } else {
                by_id == seq![d]
            }),
{
    if by_origin.len() == 1 {
        assert(by_origin =~= seq![by_origin[0]]);
    }
    if by_id.len() == 1 {
        assert(by_id =~= seq![by_id[0]]);
    }
}

/// Two stores that are received here for the first time never land in one
/// place, and neither lands anywhere unless stores may be created: an identity
/// that is one part of a path has a place of its own.
pub proof fn two_stores_never_land_in_one_place(
    opts: IntakeOpts,
    a: Seq<char>,
    b: Seq<char>,
    none: Seq<Seq<char>>,
)
    requires
        none.len() == 0,
        !is_absolute(a),
        !is_absolute(b),
        a != b,
    ensures
        landing(opts, None, none, none) is Err,
        landing(opts, Some(a), none, none) is Ok <==> opts.auto_create,
        opts.auto_create ==> landing(opts, Some(a), none, none) != landing(
            opts,
            Some(b),
            none,
            none,
        ),
{
    if opts.auto_create {
        reveal_strlit("/");
        let d = opts.into_dir@;
        let x = join(join(d, a), a);
        let y = join(join(d, b), b);
        if x == y {
            assert(x.len() == y.len());
            assert(a.len() == b.len());
            let n = x.len() - a.len();
            assert(x.skip(n as int) =~= a);
            assert(y.skip(n as int) =~= b);
        }
    }
}

/// An identity that a manifest states is taken as it is stated; anything else
/// is nobody's.
pub proof fn an_identity_is_read_as_it_is_stated(m: Option<ManifestModel>, key: Seq<char>)
    ensures
        identity_under(m, key).len() == 16,
        m is Some && text_in(m->Some_0, key) is Some && uuid_of(text_in(m->Some_0, key)->Some_0)
            is Some ==> Some(identity_under(m, key)) == uuid_of(text_in(m->Some_0, key)->Some_0),
        !(m is Some && text_in(m->Some_0, key) is Some && uuid_of(
            text_in(m->Some_0, key)->Some_0,
        ) is Some) ==> forall|i: int| 0 <= i < 16 ==> identity_under(m, key)[i] == 0,
{
}

/// A store without an identity is told of once, whatever way its path is
/// written: all that was told of stays told, and every path that is found is
/// among them.
pub proof fn a_store_is_told_of_once(known: Seq<Seq<char>>, found: Seq<Seq<char>>)
    ensures
        told(known, found).len() >= known.len(),
        told(known, found).take(known.len() as int) == known,
        forall|i: int| 0 <= i < found.len() ==> told_of(told(known, found), #[trigger] found[i]),
        forall|k: int|
            known.len() <= k < told(known, found).len() ==> found.contains(
                #[trigger] told(known, found)[k],
            ) && !told_of(told(known, found).take(k), told(known, found)[k]),
    decreases found.len(),
{
    let all = told(known, found);
    if found.len() == 0 {
        assert(known.take(known.len() as int) =~= known);
    } else {
        let front = found.drop_last();
        let last = found.last();
        let some = told(known, front);
        a_store_is_told_of_once(known, front);
        assert(all.take(known.len() as int) =~= some.take(known.len() as int));
        assert(told_of(all, last)) by {
            if told_of(some, last) {
                let j = choose|j: int| 0 <= j < some.len() && same_path(#[trigger] some[j], last);
                assert(same_path(all[j], last));
            } else {
                assert(all == some.push(last));
                assert(same_path(all[some.len() as int], last));
            }
        }
        assert forall|i: int| 0 <= i < found.len() implies told_of(all, #[trigger] found[i]) by {
            if i < front.len() {
                assert(told_of(some, front[i]));
                let j = choose|j: int|
                    0 <= j < some.len() && same_path(#[trigger] some[j], front[i]);
                assert(all[j] == some[j]);
                assert(same_path(all[j], found[i]));
            }
        }
        assert forall|k: int| known.len() <= k < all.len() implies found.contains(
            #[trigger] all[k],
        ) && !told_of(all.take(k), all[k]) by {
            if k < some.len() {
                assert(all[k] == some[k]);
                assert(all.take(k) =~= some.take(k));
                let j = choose|j: int| 0 <= j < front.len() && front[j] == some[k];
                assert(found[j] == all[k]);
            } else {
                assert(all == some.push(last));
                assert(found[found.len() - 1] == last);
                assert(all.take(k) =~= some);
            }
        }
    }
}

/// Whether a path is among those, in whatever way it is written.
pub open spec fn told_of(paths: Seq<Seq<char>>, path: Seq<char>) -> bool {
    exists|i: int| 0 <= i < paths.len() && same_path(#[trigger] paths[i], path)
}

/// A stream is found by its number on the wire: the first that has it.
pub proof fn a_stream_is_found_by_its_number(live: Seq<Stream>, wire: u32, k: int)
    ensures
        0 <= k < live.len() && live[k].wire == wire && (forall|j: int|
            0 <= j < k ==> (#[trigger] live[j]).wire != wire) ==> stream_index(live, wire, 0) == k,
        (forall|j: int| 0 <= j < live.len() ==> (#[trigger] live[j]).wire != wire)
            ==> stream_index(live, wire, 0) == live.len(),
{
    lemma_stream(live, wire, 0, k);
}

proof fn lemma_stream(live: Seq<Stream>, wire: u32, i: int, k: int)
    requires
        0 <= i <= live.len(),
    ensures
        i <= k < live.len() && live[k].wire == wire && (forall|j: int|
            i <= j < k ==> (#[trigger] live[j]).wire != wire) ==> stream_index(live, wire, i) == k,
        (forall|j: int| i <= j < live.len() ==> (#[trigger] live[j]).wire != wire)
            ==> stream_index(live, wire, i) == live.len(),
    decreases live.len() - i,
{
    if i < live.len() {
        lemma_stream(live, wire, i + 1, k);
    }
}

} // verus!
