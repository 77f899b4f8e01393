//! What a registry of followers comes to.

use crate::cursor::stands;
use crate::follower::{
    advanced_places, all_covered, behind_last, bytes_behind, carried_offset, chosen, covered_index,
    covered_of, first_unread, follower_rank, handle_at, lag_said, last_worst, note_index, pid_in,
    place_in, place_index, readable, total_behind, uncovered_in, unit_of, unread_among, unreadable,
    worst_of, Broken, Covered, CoveredModel, Matched, PlaceModel, Positions, Registered, StorePlace,
    UncoveredModel,
};
use crate::format::ChunkRecord;
use crate::lists::lemma_push;
use crate::order::before;
use crate::paths::join;
use crate::rank::{ahead, in_rank, lemma_in_rank, ranks_of};
use crate::text::{decimal, lines, parsed, trim};
use vstd::prelude::*;

verus! {

proof fn lemma_place_index(at: Seq<StorePlace>, id: Seq<char>, i: int)
    requires
        0 <= i <= at.len(),
    ensures
        i <= place_index(at, id, i) <= at.len(),
        forall|j: int| i <= j < place_index(at, id, i) ==> (#[trigger] at[j]).id@ != id,
        place_index(at, id, i) < at.len() ==> at[place_index(at, id, i)].id@ == id,
    decreases at.len() - i,
{
    if i < at.len() && at[i].id@ != id {
        lemma_place_index(at, id, i + 1);
    }
}

/// Whether no store has two places.
pub open spec fn one_place_each(at: Seq<StorePlace>) -> bool {
    forall|i: int, j: int|
        0 <= i < j < at.len() ==> (#[trigger] at[i]).id@ != (#[trigger] at[j]).id@
}

/// A follower's place in a store is the one that was recorded for it: where
/// every store has one, it is found under its own identity and under no other.
pub proof fn a_place_is_found_under_its_own_store(at: Seq<StorePlace>, id: Seq<char>, i: int)
    requires
        one_place_each(at),
    ensures
        0 <= i < at.len() && at[i].id@ == id ==> place_in(at, id) == Some(at[i]),
        place_in(at, id) is None <==> forall|j: int|
            0 <= j < at.len() ==> (#[trigger] at[j]).id@ != id,
{
    lemma_place_index(at, id, 0);
    let k = place_index(at, id, 0);
    if 0 <= i < at.len() && at[i].id@ == id && k < i {
        assert(at[k].id@ != at[i].id@);
    }
}

/// Moving on in one store moves no other place: that store's place becomes the
/// new one with what was delivered before added to it, every other place stays
/// where it stands, and a store without a place gets one behind the others.
pub proof fn moving_on_in_a_store_moves_no_other(
    at: Seq<StorePlace>,
    to: PlaceModel,
    now: Seq<StorePlace>,
)
    requires
        one_place_each(at),
        crate::follower::place_models(now) == advanced_places(at, to),
        place_in(at, to.id) is Some ==> place_in(at, to.id)->Some_0.delivered + to.delivered
            <= u64::MAX,
    ensures
        one_place_each(now),
        place_in(now, to.id) is Some,
        place_in(now, to.id)->Some_0@.delivered == to.delivered + (if place_in(at, to.id) is Some {
            place_in(at, to.id)->Some_0.delivered as int
        } else {
            0
        }),
        place_in(now, to.id)->Some_0@ == (PlaceModel {
            delivered: place_in(now, to.id)->Some_0@.delivered,
            ..to
        }),
        now.len() == at.len() + (if place_in(at, to.id) is Some {
            0int
        } else {
            1int
        }),
        forall|i: int|
            0 <= i < at.len() && (#[trigger] at[i]).id@ != to.id ==> now[i]@ == at[i]@,
{
    lemma_place_index(at, to.id, 0);
    let k = place_index(at, to.id, 0);
    let models = crate::follower::place_models(now);
    assert(models.len() == now.len());
    assert forall|i: int| 0 <= i < at.len() && i != k implies (#[trigger] now[i])@ == at[i]@ by {
        assert(models[i] == now[i]@);
    }
    assert(now[k]@ == models[k]);
    assert(now[k]@.id == to.id);
    assert forall|i: int, j: int| 0 <= i < j < now.len() implies (#[trigger] now[i]).id@ != (
    #[trigger] now[j]).id@ by {
        assert(now[i]@ == models[i] && now[j]@ == models[j]);
        if i != k && j != k {
            assert(at[i].id@ != at[j].id@);
        } else if i == k {
            assert(at[k].id@ != at[j].id@);
        } else if k < at.len() {
            assert(at[i].id@ != at[k].id@);
        } else {
            assert(at[i].id@ != to.id);
        }
    }
    a_place_is_found_under_its_own_store(now, to.id, k);
}

/// What a follower is behind is summed store by store, and an unread store
/// counts one and a read one none.
pub proof fn what_a_follower_is_behind_adds_up(a: Seq<Covered>, b: Seq<Covered>, c: Covered)
    ensures
        total_behind(Seq::empty()) == 0,
        unread_among(Seq::empty()) == 0,
        c.standing is Some ==> total_behind(seq![c]) == c.standing->Some_0.behind_bytes,
        c.standing is None ==> total_behind(seq![c]) == 0,
        c.read ==> unread_among(seq![c]) == 0,
        !c.read ==> unread_among(seq![c]) == 1,
        total_behind(a + b) == total_behind(a) + total_behind(b),
        unread_among(a + b) == unread_among(a) + unread_among(b),
    decreases b.len(),
{
    reveal_with_fuel(total_behind, 2);
    reveal_with_fuel(unread_among, 2);
    assert(seq![c].drop_last() =~= Seq::empty());
    assert(seq![c].last() == c);
    if b.len() == 0 {
        assert(a + b =~= a);
    } else {
        what_a_follower_is_behind_adds_up(a, b.drop_last(), c);
        assert((a + b).drop_last() =~= a + b.drop_last());
        assert((a + b).last() == b.last());
    }
}

proof fn lemma_first_unread(v: Seq<Covered>, i: int)
    requires
        0 <= i <= v.len(),
    ensures
        i <= first_unread(v, i) <= v.len(),
        forall|j: int| i <= j < first_unread(v, i) ==> (#[trigger] v[j]).read,
        first_unread(v, i) < v.len() ==> !v[first_unread(v, i)].read,
    decreases v.len() - i,
{
    if i < v.len() && v[i].read {
        lemma_first_unread(v, i + 1);
    }
}

proof fn lemma_last_worst(v: Seq<Covered>, i: int, best: int)
    requires
        0 <= best < i <= v.len(),
        forall|j: int| 0 <= j < i ==> bytes_behind((#[trigger] v[j])@) <= bytes_behind(v[best]@),
        forall|j: int| best < j < i ==> bytes_behind((#[trigger] v[j])@) < bytes_behind(v[best]@),
    ensures
        0 <= last_worst(v, i, best) < v.len(),
        forall|j: int|
            0 <= j < v.len() ==> bytes_behind((#[trigger] v[j])@) <= bytes_behind(
                v[last_worst(v, i, best)]@,
            ),
        forall|j: int|
            last_worst(v, i, best) < j < v.len() ==> bytes_behind((#[trigger] v[j])@)
                < bytes_behind(v[last_worst(v, i, best)]@),
    decreases v.len() - i,
{
    if i < v.len() {
        if bytes_behind(v[i]@) >= bytes_behind(v[best]@) {
            lemma_last_worst(v, i + 1, i);
        } else {
            lemma_last_worst(v, i + 1, best);
        }
    }
}

/// The store that a follower is worst off in is one that it never read, the
/// first of those there are; else one that it has the most left to read of, the
/// last of those.
pub proof fn the_worst_store_is_unread_or_furthest_behind(v: Seq<Covered>)
    ensures
        worst_of(v) is None <==> v.len() == 0,
        worst_of(v) is Some ==> 0 <= worst_of(v)->Some_0 < v.len(),
        worst_of(v) is Some && !v[worst_of(v)->Some_0].read ==> forall|j: int|
            0 <= j < worst_of(v)->Some_0 ==> (#[trigger] v[j]).read,
        worst_of(v) is Some && v[worst_of(v)->Some_0].read ==> forall|j: int|
            0 <= j < v.len() ==> {
                &&& (#[trigger] v[j]).read
                &&& behind_of(v[j]) <= behind_of(v[worst_of(v)->Some_0])
                &&& j > worst_of(v)->Some_0 ==> behind_of(v[j]) < behind_of(
                    v[worst_of(v)->Some_0],
                )
            },
{
    lemma_first_unread(v, 0);
    if v.len() > 0 {
        lemma_last_worst(v, 1, 0);
        assert forall|j: int| 0 <= j < v.len() implies bytes_behind((#[trigger] v[j])@)
            == behind_of(v[j]) by {}
    }
}

/// How many stored bytes of a store a follower has left, where that can be told.
pub open spec fn behind_of(c: Covered) -> int {
    if c.standing is Some {
        c.standing->Some_0.behind_bytes as int
    } else {
        0
    }
}

/// The stores a follower covers are shown worst first: one that it never read
/// before one that it did, of two alike the one with more left, and of two with
/// as much left the one whose handle comes first. None is lost and none added.
pub proof fn covered_stores_are_shown_worst_first(v: Seq<Covered>, i: int, j: int)
    requires
        0 <= i < j < v.len(),
    ensures
        in_rank(v).to_multiset() == v.to_multiset(),
        in_rank(v)[i].read ==> in_rank(v)[j].read,
        in_rank(v)[i].read == in_rank(v)[j].read ==> behind_of(in_rank(v)[i]) >= behind_of(
            in_rank(v)[j],
        ),
        in_rank(v)[i].read == in_rank(v)[j].read && behind_of(in_rank(v)[i]) == behind_of(
            in_rank(v)[j],
        ) ==> !before(handle_at(in_rank(v)[j].path@), handle_at(in_rank(v)[i].path@)),
{
    lemma_in_rank(v);
    let r = ranks_of(in_rank(v));
    assert(!ahead(r[j], r[i]));
    assert(r[i] == crate::follower::covered_rank(in_rank(v)[i]@));
    assert(r[j] == crate::follower::covered_rank(in_rank(v)[j]@));
}

/// Whether a follower holds back retention over a store that it never read.
pub open spec fn holds_unread(r: Registered) -> bool {
    r.decl.retaining && unread_among(r.covered@) > 0
}

proof fn lemma_unread(v: Seq<Covered>)
    ensures
        unread_among(v) <= v.len(),
        unread_among(v) > 0 <==> exists|i: int| 0 <= i < v.len() && !(#[trigger] v[i]).read,
        unread_among(v) == v.len() <==> forall|i: int|
            0 <= i < v.len() ==> !(#[trigger] v[i]).read,
    decreases v.len(),
{
    if v.len() > 0 {
        let front = v.drop_last();
        lemma_unread(front);
        assert forall|i: int| 0 <= i < front.len() implies #[trigger] front[i] == v[i] by {}
        assert(v[v.len() - 1] == v.last());
        if exists|i: int| 0 <= i < v.len() && !(#[trigger] v[i]).read {
            let i = choose|i: int| 0 <= i < v.len() && !(#[trigger] v[i]).read;
            if i < front.len() {
                assert(!front[i].read);
            }
        }
        if exists|i: int| 0 <= i < front.len() && !(#[trigger] front[i]).read {
            let i = choose|i: int| 0 <= i < front.len() && !(#[trigger] front[i]).read;
            assert(!v[i].read);
        }
        if forall|i: int| 0 <= i < v.len() ==> !(#[trigger] v[i]).read {
            assert(!v[v.len() - 1].read);
            assert forall|i: int| 0 <= i < front.len() implies !(#[trigger] front[i]).read by {
                assert(!v[i].read);
            }
        }
        if unread_among(v) == v.len() {
            assert forall|i: int| 0 <= i < v.len() implies !(#[trigger] v[i]).read by {
                if i < front.len() {
                    assert(!front[i].read);
                }
            }
        }
    }
}

/// Followers are shown worst first: one that holds back retention over a store
/// it never read before every other, of two alike the one with more left in
/// all, and of two with as much left the one whose name comes first.
pub proof fn followers_are_shown_worst_first(v: Seq<Registered>, i: int, j: int)
    requires
        forall|k: int| 0 <= k < v.len() ==> (#[trigger] v[k]).wf(),
        0 <= i < j < v.len(),
    ensures
        in_rank(v).to_multiset() == v.to_multiset(),
        holds_unread(in_rank(v)[j]) ==> holds_unread(in_rank(v)[i]),
        holds_unread(in_rank(v)[i]) == holds_unread(in_rank(v)[j]) ==> total_behind(
            in_rank(v)[i].covered@,
        ) >= total_behind(in_rank(v)[j].covered@),
        holds_unread(in_rank(v)[i]) == holds_unread(in_rank(v)[j]) && total_behind(
            in_rank(v)[i].covered@,
        ) == total_behind(in_rank(v)[j].covered@) ==> !before(
            in_rank(v)[j].decl.name@,
            in_rank(v)[i].decl.name@,
        ),
{
    lemma_in_rank(v);
    let all = in_rank(v);
    let r = ranks_of(all);
    assert(!ahead(r[j], r[i]));
    assert(r[i] == follower_rank(all[i]));
    assert(r[j] == follower_rank(all[j]));
    lemma_unread(all[i].covered@);
    lemma_unread(all[j].covered@);
    broadcast use vstd::seq_lib::group_to_multiset_ensures;
    assert(all.to_multiset().contains(all[i]));
    assert(all.to_multiset().contains(all[j]));
    assert(v.contains(all[i]) && v.contains(all[j]));
}

/// What a list of followers says of one follower follows what it covers: it
/// says that it matches nothing only where it covers nothing, that it never
/// ran only where it read none of them, and counts the unread ones otherwise.
pub proof fn what_is_said_of_a_follower(r: Registered, distance: Seq<char>)
    ensures
        r.places is Unreadable ==> lag_said(r, distance) == "positions unreadable"@,
        !(r.places is Unreadable) && r.covered@.len() == 0 ==> lag_said(r, distance)
            == "matches nothing"@,
        !(r.places is Unreadable) && r.covered@.len() > 0 && (forall|i: int|
            0 <= i < r.covered@.len() ==> !(#[trigger] r.covered@[i]).read) ==> lag_said(
            r,
            distance,
        ) == "never run"@,
        !(r.places is Unreadable) && (exists|i: int|
            0 <= i < r.covered@.len() && !(#[trigger] r.covered@[i]).read) && (exists|i: int|
            0 <= i < r.covered@.len() && (#[trigger] r.covered@[i]).read) ==> lag_said(r, distance)
            == decimal(unread_among(r.covered@)) + " of "@ + decimal(r.covered@.len())
            + " never read"@,
{
    lemma_unread(r.covered@);
    if exists|i: int| 0 <= i < r.covered@.len() && (#[trigger] r.covered@[i]).read {
        let i = choose|i: int| 0 <= i < r.covered@.len() && (#[trigger] r.covered@[i]).read;
        assert(r.covered@[i].read);
        assert(unread_among(r.covered@) != r.covered@.len());
    }
}

proof fn lemma_covered_index(v: Seq<Covered>, id: Seq<char>, i: int)
    requires
        0 <= i <= v.len(),
    ensures
        i <= covered_index(v, id, i) <= v.len(),
        forall|j: int| i <= j < covered_index(v, id, i) ==> (#[trigger] v[j]).id@ != id,
        covered_index(v, id, i) < v.len() ==> v[covered_index(v, id, i)].id@ == id,
    decreases v.len() - i,
{
    if i < v.len() && v[i].id@ != id {
        lemma_covered_index(v, id, i + 1);
    }
}

/// Whether a follower covers a store.
pub open spec fn covers_store(v: Seq<Covered>, id: Seq<char>) -> bool {
    exists|i: int| 0 <= i < v.len() && (#[trigger] v[i]).id@ == id
}

/// The places that no covered store answers to are told of, and no other is:
/// each with whether its store is still there.
pub proof fn a_place_without_a_store_is_told_of(
    at: Seq<StorePlace>,
    covered: Seq<Covered>,
    on_disk: Seq<Seq<char>>,
    u: UncoveredModel,
)
    ensures
        uncovered_in(at, covered, on_disk).contains(u) <==> !covers_store(covered, u.id)
            && exists|i: int|
            0 <= i < at.len() && (#[trigger] at[i]).id@ == u.id && u.on_disk == (at[i].path@.len()
                > 0 && on_disk.contains(u.id)),
    decreases at.len(),
{
    if at.len() > 0 {
        let front = at.drop_last();
        let last = at.last();
        a_place_without_a_store_is_told_of(front, covered, on_disk, u);
        lemma_covered_index(covered, last.id@, 0);
        let told = uncovered_in(front, covered, on_disk);
        let x = UncoveredModel {
            id: last.id@,
            on_disk: last.path@.len() > 0 && on_disk.contains(last.id@),
        };
        lemma_push(told, x, u);
        assert(at[at.len() - 1] == last);
        assert forall|i: int| 0 <= i < front.len() implies #[trigger] front[i] == at[i] by {}
        let is = |v: Seq<StorePlace>|
            exists|i: int|
                0 <= i < v.len() && (#[trigger] v[i]).id@ == u.id && u.on_disk == (
                v[i].path@.len() > 0 && on_disk.contains(u.id));
        if is(front) {
            let i = choose|i: int|
                0 <= i < front.len() && (#[trigger] front[i]).id@ == u.id && u.on_disk == (
                front[i].path@.len() > 0 && on_disk.contains(u.id));
            assert(at[i] == front[i]);
        }
        if is(at) {
            let i = choose|i: int|
                0 <= i < at.len() && (#[trigger] at[i]).id@ == u.id && u.on_disk == (
                at[i].path@.len() > 0 && on_disk.contains(u.id));
            if i < front.len() {
                assert(front[i] == at[i]);
            }
        }
        if covers_store(covered, last.id@) {
            let i = choose|i: int| 0 <= i < covered.len()
                && (#[trigger] covered[i]).id@ == last.id@;
            assert(covered_index(covered, last.id@, 0) <= i);
        } else {
            assert(covered_index(covered, last.id@, 0) == covered.len());
        }
    }
}

/// The followers that cover a store are those whose answer is yes, in order.
pub proof fn the_followers_that_cover_a_store_are_chosen(
    held: Seq<Registered>,
    covers: Seq<bool>,
    r: Registered,
)
    requires
        held.len() <= covers.len(),
    ensures
        chosen(held, covers).contains(r) <==> exists|i: int|
            0 <= i < held.len() && #[trigger] held[i] == r && covers[i],
        chosen(held, covers).len() <= held.len(),
    decreases held.len(),
{
    if held.len() > 0 {
        let front = held.drop_last();
        the_followers_that_cover_a_store_are_chosen(front, covers, r);
        lemma_push(chosen(front, covers), held.last(), r);
        assert forall|i: int| 0 <= i < front.len() implies #[trigger] front[i] == held[i] by {}
        if exists|i: int| 0 <= i < front.len() && #[trigger] front[i] == r && covers[i] {
            let i = choose|i: int| 0 <= i < front.len() && #[trigger] front[i] == r && covers[i];
            assert(held[i] == r);
        }
        if exists|i: int| 0 <= i < held.len() && #[trigger] held[i] == r && covers[i] {
            let i = choose|i: int| 0 <= i < held.len() && #[trigger] held[i] == r && covers[i];
            if i < front.len() {
                assert(front[i] == r);
            }
        }
        if covers[held.len() - 1] && r == held.last() {
            assert(held[held.len() - 1] == r);
        }
    }
}

/// Every store with an identity is covered, under that identity and where it
/// lies, and was read exactly where the follower has a place in it; where it
/// stands is told from that place. One without an identity is not covered.
pub proof fn a_store_is_covered_under_its_identity(m: Matched, p: Positions)
    ensures
        covered_of(m, None) is Some <==> m.id is Some,
        covered_of(m, Some(p)) is Some <==> m.id is Some,
        m.id is Some ==> {
            let id = m.id->Some_0@;
            let c = covered_of(m, Some(p))->Some_0;
            let none = covered_of(m, None)->Some_0;
            &&& c.id == id && none.id == id
            &&& c.path == join(m.dir@, m.name@) && none.path == c.path
            &&& c.read <==> exists|i: int| 0 <= i < p.at@.len() && (#[trigger] p.at@[i]).id@ == id
            &&& !none.read && none.note is None
            &&& c.note is Some <==> exists|i: int|
                0 <= i < p.notes@.len() && (#[trigger] p.notes@[i]).id@ == id
            &&& c.standing is Some <==> m.records is Some
            &&& m.records is Some && c.read ==> exists|i: int|
                0 <= i < p.at@.len() && (#[trigger] p.at@[i]).id@ == id && c.standing == Some(
                    stands(p.at@[i].chunk, p.at@[i].wl, m.records->Some_0@),
                )
            &&& m.records is Some && !c.read ==> c.standing == Some(
                stands(None, 0, m.records->Some_0@),
            )
        },
{
    if m.id is Some {
        let id = m.id->Some_0@;
        lemma_place_index(p.at@, id, 0);
        lemma_note_index(p, id, 0);
        let k = place_index(p.at@, id, 0);
        if k < p.at@.len() {
            assert(p.at@[k].id@ == id);
        }
    }
}

proof fn lemma_note_index(p: Positions, id: Seq<char>, i: int)
    requires
        0 <= i <= p.notes@.len(),
    ensures
        i <= note_index(p.notes@, id, i) <= p.notes@.len(),
        forall|j: int|
            i <= j < note_index(p.notes@, id, i) ==> (#[trigger] p.notes@[j]).id@ != id,
        note_index(p.notes@, id, i) < p.notes@.len() ==> p.notes@[note_index(
            p.notes@,
            id,
            i,
        )].id@ == id,
    decreases p.notes@.len() - i,
{
    if i < p.notes@.len() && p.notes@[i].id@ != id {
        lemma_note_index(p, id, i + 1);
    }
}

/// A cursor is carried to the byte at which its chunk starts, counted from the
/// first byte the store ever held; where its chunk is gone or it has none, to
/// the first byte the store still holds.
pub proof fn a_cursor_is_carried_to_where_its_chunk_starts(
    seq: Option<u64>,
    records: Seq<ChunkRecord>,
    dropped: u64,
    k: int,
)
    ensures
        records.len() == 0 ==> carried_offset(seq, records, dropped, 0) == dropped,
        seq is Some && 0 <= k < records.len() && records[k].seq == seq->Some_0 && (forall|i: int|
            0 <= i < k ==> (#[trigger] records[i]).seq != seq->Some_0) ==> carried_offset(
            seq,
            records,
            dropped,
            0,
        ) == dropped + records[k].uncomp_start,
        records.len() > 0 && (seq is None || forall|i: int|
            0 <= i < records.len() ==> (#[trigger] records[i]).seq != seq->Some_0)
            ==> carried_offset(seq, records, dropped, 0) == dropped + records[0].uncomp_start,
{
    if seq is Some {
        lemma_carried(seq, records, dropped, 0, k);
    }
}

proof fn lemma_carried(
    seq: Option<u64>,
    records: Seq<ChunkRecord>,
    dropped: u64,
    i: int,
    k: int,
)
    requires
        seq is Some,
        0 <= i <= records.len(),
    ensures
        i <= k < records.len() && records[k].seq == seq->Some_0 && (forall|j: int|
            i <= j < k ==> (#[trigger] records[j]).seq != seq->Some_0) ==> carried_offset(
            seq,
            records,
            dropped,
            i,
        ) == dropped + records[k].uncomp_start,
        records.len() > 0 && (forall|j: int|
            i <= j < records.len() ==> (#[trigger] records[j]).seq != seq->Some_0)
            ==> carried_offset(seq, records, dropped, i) == dropped + records[0].uncomp_start,
    decreases records.len() - i,
{
    if i < records.len() && records[i].seq != seq->Some_0 {
        lemma_carried(seq, records, dropped, i + 1, k);
    }
}

/// Every follower that was read is listed and every other is told of: each is
/// in one of the two lists, and nothing else is.
pub proof fn a_follower_is_listed_or_told_of(v: Seq<Result<Registered, Broken>>)
    ensures
        readable(v).len() + unreadable(v).len() == v.len(),
        forall|r: Registered|
            readable(v).contains(r) <==> v.contains(Ok::<Registered, Broken>(r)),
        forall|b: Broken|
            unreadable(v).contains(b) <==> v.contains(Err::<Registered, Broken>(b)),
    decreases v.len(),
{
    if v.len() > 0 {
        let front = v.drop_last();
        a_follower_is_listed_or_told_of(front);
        assert(front.push(v.last()) =~= v);
        assert forall|r: Registered| readable(v).contains(r) <==> v.contains(
            Ok::<Registered, Broken>(r),
        ) by {
            lemma_push(front, v.last(), Ok::<Registered, Broken>(r));
            if v.last() is Ok {
                lemma_push(readable(front), v.last()->Ok_0, r);
            }
        }
        assert forall|b: Broken| unreadable(v).contains(b) <==> v.contains(
            Err::<Registered, Broken>(b),
        ) by {
            lemma_push(front, v.last(), Err::<Registered, Broken>(b));
            if v.last() is Err {
                lemma_push(unreadable(front), v.last()->Err_0, b);
            }
        }
    }
}

proof fn lemma_behind_last(s: Seq<char>, mark: Seq<char>, i: int, k: int)
    requires
        0 <= k <= i,
        k + mark.len() <= s.len(),
        s.subrange(k, k + mark.len()) == mark,
        forall|j: int|
            k < j <= i && j + mark.len() <= s.len() ==> #[trigger] s.subrange(j, j + mark.len())
                != mark,
    ensures
        behind_last(s, mark, i) == Some(s.skip(k + mark.len())),
    decreases i,
{
    if i > k {
        lemma_behind_last(s, mark, i - 1, k);
    }
}

/// The process that a lock names is read from behind the last mark of its first
/// line, whatever stands before.
pub proof fn the_last_mark_of_the_first_line_names_the_process(raw: Seq<char>, k: int)
    requires
        lines(raw).len() > 0,
        0 <= k,
        k + 4 <= lines(raw)[0].len(),
        lines(raw)[0].subrange(k, k + 4) == "pid="@,
        forall|j: int|
            k < j && j + 4 <= lines(raw)[0].len() ==> #[trigger] lines(raw)[0].subrange(j, j + 4)
                != "pid="@,
    ensures
        pid_in(raw) == parsed(trim(lines(raw)[0].skip(k + 4)), 0xffff_ffff),
{
    reveal_strlit("pid=");
    assert("pid="@.len() == 4);
    lemma_behind_last(lines(raw)[0], "pid="@, lines(raw)[0].len() as int, k);
}

/// No two followers share a unit.
pub proof fn every_follower_has_a_unit_of_its_own(a: Seq<char>, b: Seq<char>)
    ensures
        unit_of(a) == unit_of(b) ==> a == b,
{
    let n = "timberfs-follower@"@.len() as int;
    let x = unit_of(a);
    assert(x.subrange(n, n + a.len()) =~= a);
    if unit_of(a) == unit_of(b) {
        assert(unit_of(a).len() == unit_of(b).len());
        assert(unit_of(b).subrange(n, n + b.len()) =~= b);
    }
}

/// Every store that is matched and has an identity is covered, and nothing else
/// is.
pub proof fn every_matched_store_is_covered(
    v: Seq<Matched>,
    p: Option<Positions>,
    c: CoveredModel,
)
    ensures
        all_covered(v, p).contains(c) <==> exists|i: int|
            0 <= i < v.len() && covered_of(#[trigger] v[i], p) == Some(c),
    decreases v.len(),
{
    if v.len() > 0 {
        let front = v.drop_last();
        let last = v.last();
        every_matched_store_is_covered(front, p, c);
        assert(v[v.len() - 1] == last);
        assert forall|i: int| 0 <= i < front.len() implies #[trigger] front[i] == v[i] by {}
        if covered_of(last, p) is Some {
            lemma_push(all_covered(front, p), covered_of(last, p)->Some_0, c);
        }
        if exists|i: int| 0 <= i < front.len() && covered_of(#[trigger] front[i], p) == Some(c) {
            let i = choose|i: int|
                0 <= i < front.len() && covered_of(#[trigger] front[i], p) == Some(c);
            assert(covered_of(v[i], p) == Some(c));
        }
        if exists|i: int| 0 <= i < v.len() && covered_of(#[trigger] v[i], p) == Some(c) {
            let i = choose|i: int|
                0 <= i < v.len() && covered_of(#[trigger] v[i], p) == Some(c);
            if i < front.len() {
                assert(covered_of(front[i], p) == Some(c));
            }
        }
        if covered_of(last, p) == Some(c) {
            assert(covered_of(v[v.len() - 1], p) == Some(c));
        }
    }
}

} // verus!
