//! What holding back retention for those who still read comes to.

use crate::forests::is_name;
use crate::interest::{
    chunk_at, covers_it, first_lost, interest_in, interest_of, retained, retaining_of, stands_in,
    verdict, InterestModel, RegistryEntry, Retaining, RotateStats, Stand, StoreChunk,
};
use crate::lists::lemma_push;
use vstd::prelude::*;

verus! {

/// A follower stands in a store where it said so last, and nowhere in a store
/// that it said nothing of.
pub proof fn a_follower_stands_where_it_said_last(at: Seq<StoreChunk>, id: Seq<char>, k: int)
    ensures
        0 <= k < at.len() && at[k].id@ == id && (forall|j: int|
            k < j < at.len() ==> (#[trigger] at[j]).id@ != id) ==> chunk_at(at, id) == at[k].chunk,
        (forall|j: int| 0 <= j < at.len() ==> (#[trigger] at[j]).id@ != id) ==> chunk_at(at, id)
            is None,
    decreases at.len(),
{
    if at.len() > 0 {
        let front = at.drop_last();
        assert forall|j: int| 0 <= j < front.len() implies #[trigger] front[j] == at[j] by {}
        assert(at[at.len() - 1] == at.last());
        a_follower_stands_where_it_said_last(front, id, k);
    }
}

/// Whether an entry is a follower whose declaration was read and asks that what
/// it has not read is kept.
pub open spec fn asks_to_retain(e: RegistryEntry) -> bool {
    e is Directory && is_name(e->Directory_0.name@) && e->Directory_0.declaration is Some
        && e->Directory_0.declaration->Some_0.retaining
}

/// Whether an entry is a follower that might retain anything: it could not be
/// listed, has no readable name or declaration, or asks to retain what cannot
/// be told.
pub open spec fn leaves_open(e: RegistryEntry) -> bool {
    ||| e is Unlisted
    ||| e is Nameless
    ||| e is Directory && is_name(e->Directory_0.name@) && e->Directory_0.declaration is None
    ||| asks_to_retain(e) && !(e->Directory_0.selectable && e->Directory_0.at is Some)
}

/// Whether this follower is one that an entry registers.
pub open spec fn registers(e: RegistryEntry, r: Retaining) -> bool {
    &&& asks_to_retain(e)
    &&& r.name == e->Directory_0.name
    &&& r.select == e->Directory_0.declaration->Some_0.select
    &&& Some(r.at) == e->Directory_0.at
}

/// Who retains is known exactly where no entry leaves it open, and then it is
/// every follower that asks to retain and no one else.
pub proof fn who_retains_is_known_or_left_open(entries: Seq<RegistryEntry>)
    ensures
        retained(entries) is None <==> exists|i: int|
            0 <= i < entries.len() && leaves_open(#[trigger] entries[i]),
        retained(entries) is Some ==> forall|r: Retaining|
            #![trigger retained(entries)->Some_0.contains(r)]
            retained(entries)->Some_0.contains(r) <==> exists|i: int|
                0 <= i < entries.len() && registers(#[trigger] entries[i], r),
    decreases entries.len(),
{
    if entries.len() > 0 {
        let front = entries.drop_last();
        let last = entries.last();
        who_retains_is_known_or_left_open(front);
        assert(entries[entries.len() - 1] == last);
        assert forall|i: int| 0 <= i < front.len() implies #[trigger] front[i] == entries[i] by {}
        assert(verdict(last) is Unknown <==> leaves_open(last));
        if exists|i: int| 0 <= i < front.len() && leaves_open(#[trigger] front[i]) {
            let i = choose|i: int| 0 <= i < front.len() && leaves_open(#[trigger] front[i]);
            assert(leaves_open(entries[i]));
        }
        if exists|i: int| 0 <= i < entries.len() && leaves_open(#[trigger] entries[i]) {
            let i = choose|i: int| 0 <= i < entries.len() && leaves_open(#[trigger] entries[i]);
            if i < front.len() {
                assert(leaves_open(front[i]));
            }
        }
        if retained(entries) is Some {
            let all = retained(entries)->Some_0;
            let some = retained(front)->Some_0;
            assert forall|r: Retaining| #[trigger] all.contains(r) <==> exists|i: int|
                0 <= i < entries.len() && registers(#[trigger] entries[i], r) by {
                lemma_push(some, retaining_of(last), r);
                assert(some.contains(r) <==> exists|i: int|
                    0 <= i < front.len() && registers(#[trigger] front[i], r));
                assert(registers(last, r) <==> verdict(last) is Retains && r == retaining_of(last));
                if exists|i: int| 0 <= i < front.len() && registers(#[trigger] front[i], r) {
                    let i = choose|i: int|
                        0 <= i < front.len() && registers(#[trigger] front[i], r);
                    assert(registers(entries[i], r));
                }
                if exists|i: int| 0 <= i < entries.len() && registers(#[trigger] entries[i], r) {
                    let i = choose|i: int|
                        0 <= i < entries.len() && registers(#[trigger] entries[i], r);
                    if i < front.len() {
                        assert(registers(front[i], r));
                    }
                }
            }
        }
    }
}

/// Whether a retaining follower may cover the store: one of which it is not
/// known counts.
pub open spec fn may_cover(covers: Seq<bool>, i: int) -> bool {
    0 <= i < covers.len() ==> covers[i]
}

/// Those who hold a store are exactly the retaining followers that may cover
/// it, each where it said it stands in it; a store without an identity is one
/// that nobody has read.
pub proof fn whoever_may_cover_a_store_holds_it(
    all: Seq<Retaining>,
    covers: Seq<bool>,
    id: Seq<char>,
    s: Stand,
)
    ensures
        stands_in(all, covers, Some(id)).contains(s) <==> exists|i: int|
            0 <= i < all.len() && may_cover(covers, i) && (#[trigger] all[i]).name@ == s.name
                && chunk_at(all[i].at@, id) == s.at,
        stands_in(all, covers, None).contains(s) <==> s.at is None && exists|i: int|
            0 <= i < all.len() && may_cover(covers, i) && (#[trigger] all[i]).name@ == s.name,
    decreases all.len(),
{
    if all.len() > 0 {
        let front = all.drop_last();
        let last = all.last();
        whoever_may_cover_a_store_holds_it(front, covers, id, s);
        assert(all[all.len() - 1] == last);
        assert forall|i: int| 0 <= i < front.len() implies #[trigger] front[i] == all[i] by {}
        lemma_push(
            stands_in(front, covers, Some(id)),
            Stand { name: last.name@, at: chunk_at(last.at@, id) },
            s,
        );
        lemma_push(stands_in(front, covers, None), Stand { name: last.name@, at: None }, s);
        assert(covers_it(covers, all.len() - 1) == may_cover(covers, all.len() - 1));
        let is = |v: Seq<Retaining>|
            exists|i: int|
                0 <= i < v.len() && may_cover(covers, i) && (#[trigger] v[i]).name@ == s.name
                    && chunk_at(v[i].at@, id) == s.at;
        let named = |v: Seq<Retaining>|
            exists|i: int|
                0 <= i < v.len() && may_cover(covers, i) && (#[trigger] v[i]).name@ == s.name;
        if is(front) {
            let i = choose|i: int|
                0 <= i < front.len() && may_cover(covers, i) && (#[trigger] front[i]).name@
                    == s.name && chunk_at(front[i].at@, id) == s.at;
            assert(all[i] == front[i]);
        }
        if named(front) {
            let i = choose|i: int|
                0 <= i < front.len() && may_cover(covers, i) && (#[trigger] front[i]).name@
                    == s.name;
            assert(all[i] == front[i]);
        }
        if is(all) {
            let i = choose|i: int|
                0 <= i < all.len() && may_cover(covers, i) && (#[trigger] all[i]).name@ == s.name
                    && chunk_at(all[i].at@, id) == s.at;
            if i < front.len() {
                assert(front[i] == all[i]);
            }
        }
        if named(all) {
            let i = choose|i: int|
                0 <= i < all.len() && may_cover(covers, i) && (#[trigger] all[i]).name@ == s.name;
            if i < front.len() {
                assert(front[i] == all[i]);
            }
        }
    }
}

/// Interest is blind exactly where it is not known who retains; and where
/// nobody may cover the store nothing is held and nobody is named.
pub proof fn interest_is_blind_only_where_nothing_is_known(
    index: Option<Seq<Retaining>>,
    covers: Seq<bool>,
    id: Option<Seq<char>>,
    next_seq: u64,
)
    ensures
        interest_in(index, covers, id, next_seq).blind <==> index is None,
        index is Some && (forall|i: int|
            0 <= i < index->Some_0.len() ==> !(#[trigger] may_cover(covers, i))) ==> interest_in(
            index,
            covers,
            id,
            next_seq,
        ).retaining == 0 && interest_in(index, covers, id, next_seq).holder is None && interest_in(
            index,
            covers,
            id,
            next_seq,
        ).floor is None,
        index is None ==> interest_in(index, covers, id, next_seq).floor is None,
        id is None ==> interest_in(index, covers, id, next_seq).floor is None,
{
    if index is Some {
        let v = stands_in(index->Some_0, covers, id);
        crate::interest::the_floor_is_the_minimum(v, next_seq);
        if forall|i: int| 0 <= i < index->Some_0.len() ==> !(#[trigger] may_cover(covers, i)) {
            lemma_nobody(index->Some_0, covers, id);
        }
        if id is None && v.len() > 0 {
            let s = v[0];
            whoever_may_cover_a_store_holds_it(index->Some_0, covers, Seq::empty(), s);
            assert(v.contains(s));
            assert(crate::interest::holds_all(v[0].at, next_seq));
        }
    }
}

proof fn lemma_nobody(all: Seq<Retaining>, covers: Seq<bool>, id: Option<Seq<char>>)
    requires
        forall|i: int| 0 <= i < all.len() ==> !(#[trigger] may_cover(covers, i)),
    ensures
        stands_in(all, covers, id).len() == 0,
    decreases all.len(),
{
    if all.len() > 0 {
        lemma_nobody(all.drop_last(), covers, id);
        assert(!may_cover(covers, all.len() - 1));
        assert(covers_it(covers, all.len() - 1) == may_cover(covers, all.len() - 1));
    }
}

/// A loss goes unrecorded only where there is none: nobody holds the store, or
/// everything that was dropped lies below the floor.
pub proof fn a_loss_is_never_passed_over(stats: RotateStats, interest: InterestModel, n: u64)
    requires
        stats.first_seq <= n <= stats.last_seq,
        interest.holder is Some,
        interest.floor is Some ==> n >= interest.floor->Some_0,
    ensures
        first_lost(stats, interest) is Some,
        first_lost(stats, interest)->Some_0 <= n,
{
}

/// Nobody loses where nobody holds.
pub proof fn nobody_loses_where_nobody_holds(stats: RotateStats, interest: InterestModel)
    requires
        interest.holder is None,
    ensures
        first_lost(stats, interest) is None,
{
}

/// Whoever is named as holding a store stands where it is said to stand.
pub proof fn a_holder_stands_where_it_is_said(v: Seq<Stand>, next_seq: u64)
    ensures
        interest_of(v, next_seq).floor is Some ==> interest_of(v, next_seq).holder_at
            == interest_of(v, next_seq).floor,
        interest_of(v, next_seq).holder is Some <==> v.len() > 0,
        forall|i: int|
            0 <= i < v.len() && (#[trigger] v[i]).at is None ==> interest_of(v, next_seq).floor
                is None,
        forall|i: int|
            0 <= i < v.len() && (#[trigger] v[i]).at is Some && v[i].at->Some_0 >= next_seq
                ==> interest_of(v, next_seq).floor is None,
{
    crate::interest::the_floor_is_the_minimum(v, next_seq);
}

} // verus!
