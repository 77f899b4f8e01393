//! Ranking: worst first, by numbers and then by name, first come first where
//! nothing tells two apart.

use crate::order::{before, comes_before, lemma_before_irreflexive, lemma_before_transitive};
use vstd::prelude::*;

verus! {

/// What something is ranked by: two numbers, lower first, and a name.
pub struct RankModel {
    pub first: u64,
    pub second: u64,
    pub name: Seq<char>,
}

/// What something is ranked by.
pub struct Rank {
    pub first: u64,
    pub second: u64,
    pub name: String,
}

impl View for Rank {
    type V = RankModel;

    open spec fn view(&self) -> RankModel {
        RankModel { first: self.first, second: self.second, name: self.name@ }
    }
}

/// Whether one rank is ahead of another.
pub open spec fn ahead(a: RankModel, b: RankModel) -> bool {
    a.first < b.first || (a.first == b.first && (a.second < b.second || (a.second == b.second
        && before(a.name, b.name))))
}

/// Where a newcomer goes: behind everything that it is not ahead of.
pub open spec fn place(ranks: Seq<RankModel>, r: RankModel) -> int
    decreases ranks.len(),
{
    if ranks.len() == 0 || ahead(r, ranks[0]) {
        0
    } else {
        1 + place(ranks.drop_first(), r)
    }
}

/// Whether nothing stands behind something that it is ahead of.
pub open spec fn ranked(ranks: Seq<RankModel>) -> bool {
    forall|i: int, j: int| 0 <= i < j < ranks.len() ==> !ahead(#[trigger] ranks[j], #[trigger] ranks[i])
}

pub proof fn lemma_ahead_transitive(a: RankModel, b: RankModel, c: RankModel)
    requires
        ahead(a, b),
        ahead(b, c),
    ensures
        ahead(a, c),
{
    if before(a.name, b.name) && before(b.name, c.name) {
        lemma_before_transitive(a.name, b.name, c.name);
    }
}

pub proof fn lemma_place(ranks: Seq<RankModel>, r: RankModel)
    ensures
        0 <= place(ranks, r) <= ranks.len(),
        forall|i: int| 0 <= i < place(ranks, r) ==> !ahead(r, #[trigger] ranks[i]),
        place(ranks, r) < ranks.len() ==> ahead(r, ranks[place(ranks, r)]),
    decreases ranks.len(),
{
    if ranks.len() > 0 && !ahead(r, ranks[0]) {
        let t = ranks.drop_first();
        lemma_place(t, r);
        assert forall|i: int| 0 <= i < place(ranks, r) implies !ahead(r, #[trigger] ranks[i]) by {
            if i > 0 {
                assert(ranks[i] == t[i - 1]);
            }
        }
    }
}

/// The place of a newcomer, told by what is on either side.
pub proof fn lemma_place_is(ranks: Seq<RankModel>, r: RankModel, k: int)
    requires
        0 <= k <= ranks.len(),
        forall|i: int| 0 <= i < k ==> !ahead(r, #[trigger] ranks[i]),
        k < ranks.len() ==> ahead(r, ranks[k]),
    ensures
        place(ranks, r) == k,
{
    lemma_place(ranks, r);
    if place(ranks, r) < k {
        assert(!ahead(r, ranks[place(ranks, r)]));
    }
    if k < place(ranks, r) {
        assert(!ahead(r, ranks[k]));
    }
}

/// Putting a newcomer in its place keeps a list ranked.
pub proof fn lemma_place_keeps_ranked(ranks: Seq<RankModel>, r: RankModel)
    requires
        ranked(ranks),
    ensures
        ranked(ranks.insert(place(ranks, r), r)),
{
    lemma_place(ranks, r);
    let k = place(ranks, r);
    let now = ranks.insert(k, r);
    assert forall|i: int, j: int| 0 <= i < j < now.len() implies !ahead(
        #[trigger] now[j],
        #[trigger] now[i],
    ) by {
        let a = if i < k { i } else { i - 1 };
        let b = if j < k { j } else { j - 1 };
        if i == k {
            // The newcomer is ahead of the first one behind it, and so of all.
            assert(now[j] == ranks[b]);
            if ahead(ranks[b], r) {
                lemma_ahead_transitive(ranks[b], r, ranks[k]);
                if b > k {
                    assert(!ahead(ranks[b], ranks[k]));
                } else {
                    lemma_before_irreflexive(ranks[k].name);
                }
            }
        } else if j == k {
            assert(now[i] == ranks[a]);
        } else {
            assert(now[i] == ranks[a] && now[j] == ranks[b]);
            assert(!ahead(ranks[b], ranks[a]));
        }
    }
}

/// Whether one rank is ahead of another.
pub fn is_ahead(a: &Rank, b: &Rank) -> (r: bool)
    ensures
        r == ahead(a@, b@),
{
    a.first < b.first || (a.first == b.first && (a.second < b.second || (a.second == b.second
        && comes_before(a.name.as_str(), b.name.as_str()))))
}

/// Something that can be ranked.
pub trait Ranked: Sized {
    /// Whether what it is ranked by can be told.
    spec fn rankable(&self) -> bool;

    /// What it is ranked by.
    spec fn rank_model(&self) -> RankModel;

    /// What it is ranked by.
    fn rank(&self) -> (r: Rank)
        requires
            self.rankable(),
        ensures
            r@ == self.rank_model(),
    ;
}

/// What each of a list is ranked by.
pub open spec fn ranks_of<T: Ranked>(v: Seq<T>) -> Seq<RankModel> {
    Seq::new(v.len(), |i: int| v[i].rank_model())
}

/// A list in the order of its ranks, first come first where nothing tells two
/// apart.
pub open spec fn in_rank<T: Ranked>(v: Seq<T>) -> Seq<T>
    decreases v.len(),
{
    if v.len() == 0 {
        v
    } else {
        let front = in_rank(v.drop_last());
        front.insert(place(ranks_of(front), v.last().rank_model()), v.last())
    }
}

/// Ranking keeps everything and puts nothing behind what it is ahead of.
pub proof fn lemma_in_rank<T: Ranked>(v: Seq<T>)
    ensures
        in_rank(v).len() == v.len(),
        in_rank(v).to_multiset() == v.to_multiset(),
        ranked(ranks_of(in_rank(v))),
    decreases v.len(),
{
    if v.len() > 0 {
        let front = in_rank(v.drop_last());
        lemma_in_rank(v.drop_last());
        let k = place(ranks_of(front), v.last().rank_model());
        lemma_place(ranks_of(front), v.last().rank_model());
        lemma_place_keeps_ranked(ranks_of(front), v.last().rank_model());
        assert(ranks_of(front.insert(k, v.last())) =~= ranks_of(front).insert(
            k,
            v.last().rank_model(),
        ));
        vstd::seq_lib::to_multiset_insert(front, k, v.last());
        vstd::seq_lib::to_multiset_insert(v.drop_last(), v.len() - 1, v.last());
        assert(v.drop_last().insert(v.len() - 1, v.last()) =~= v);
    }
}

/// Puts a list in the order of its ranks.
pub fn rank_all<T: Ranked>(v: Vec<T>) -> (r: Vec<T>)
    requires
        forall|i: int| 0 <= i < v@.len() ==> (#[trigger] v@[i]).rankable(),
    ensures
        r@ == in_rank(v@),
{
    let ghost given = v@;
    let mut out: Vec<T> = Vec::new();
    proof {
        assert(out@ =~= given.take(0));
    }
    for x in it: v
        invariant
            it.seq() == given,
            forall|i: int| 0 <= i < given.len() ==> (#[trigger] given[i]).rankable(),
            forall|i: int| 0 <= i < out@.len() ==> (#[trigger] out@[i]).rankable(),
            out@ == in_rank(given.take(it.index() as int)),
    {
        let ghost n = it.index() as int;
        proof {
            assert(given.take(n + 1).drop_last() =~= given.take(n));
            assert(given.take(n + 1).last() == x);
            assert(given[n].rankable());
        }
        let rank = x.rank();
        let ghost ranks = ranks_of(out@);
        let mut k: usize = 0;
        while k < out.len() && !is_ahead(&rank, &out[k].rank())
            invariant
                k <= out@.len(),
                ranks == ranks_of(out@),
                forall|i: int| 0 <= i < out@.len() ==> (#[trigger] out@[i]).rankable(),
                forall|i: int| 0 <= i < k ==> !ahead(rank@, #[trigger] ranks[i]),
            decreases out@.len() - k,
        {
            proof {
                assert(ranks[k as int] == out@[k as int].rank_model());
            }
            k = k + 1;
        }
        proof {
            if k < out@.len() {
                assert(ranks[k as int] == out@[k as int].rank_model());
            }
            lemma_place_is(ranks, rank@, k as int);
        }
        let ghost was = out@;
        let ghost y = x;
        out.insert(k, x);
        proof {
            assert forall|i: int| 0 <= i < out@.len() implies (#[trigger] out@[i]).rankable() by {
                if i < k {
                    assert(out@[i] == was[i]);
                } else if i == k {
                    assert(out@[i] == y);
                } else {
                    assert(out@[i] == was[i - 1]);
                }
            }
        }
    }
    proof {
        assert(given.take(given.len() as int) =~= given);
    }
    out
}

} // verus!
