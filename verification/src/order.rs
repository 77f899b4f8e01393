//! The order of texts, and lists kept in it.

use crate::text::{chars_of, text, texts};
use vstd::prelude::*;

verus! {

/// Whether one text comes before another: at the first place where they
/// differ, by code point, and a text after its own beginnings.
pub open spec fn before(a: Seq<char>, b: Seq<char>) -> bool
    decreases a.len(),
{
    if b.len() == 0 {
        false
    } else if a.len() == 0 {
        true
    } else if a[0] != b[0] {
        a[0] < b[0]
    } else {
        before(a.drop_first(), b.drop_first())
    }
}

pub proof fn lemma_before_irreflexive(a: Seq<char>)
    ensures
        !before(a, a),
    decreases a.len(),
{
    if a.len() > 0 {
        lemma_before_irreflexive(a.drop_first());
    }
}

pub proof fn lemma_before_transitive(a: Seq<char>, b: Seq<char>, c: Seq<char>)
    requires
        before(a, b),
        before(b, c),
    ensures
        before(a, c),
    decreases a.len(),
{
    if a.len() > 0 && b.len() > 0 && c.len() > 0 && a[0] == b[0] && b[0] == c[0] {
        lemma_before_transitive(a.drop_first(), b.drop_first(), c.drop_first());
    }
}

pub proof fn lemma_before_total(a: Seq<char>, b: Seq<char>)
    ensures
        a == b || before(a, b) || before(b, a),
    decreases a.len(),
{
    if a.len() == 0 && b.len() == 0 {
        assert(a =~= b);
    } else if a.len() > 0 && b.len() > 0 && a[0] == b[0] {
        lemma_before_total(a.drop_first(), b.drop_first());
        if a.drop_first() == b.drop_first() {
            assert(a =~= seq![a[0]] + a.drop_first());
            assert(b =~= seq![b[0]] + b.drop_first());
        }
    }
}

/// One text comes before another exactly where they agree up to a place at which
/// the first has ended and the other has not, or has the smaller character.
pub proof fn the_first_difference_decides(a: Seq<char>, b: Seq<char>)
    ensures
        before(a, b) <==> exists|k: int|
            0 <= k <= a.len() && k < b.len() && #[trigger] a.take(k) == b.take(k) && (k == a.len()
                || a[k] < b[k]),
    decreases a.len(),
{
    if a.len() > 0 && b.len() > 0 && a[0] == b[0] {
        let x = a.drop_first();
        let y = b.drop_first();
        the_first_difference_decides(x, y);
        if before(a, b) {
            let k = choose|k: int|
                0 <= k <= x.len() && k < y.len() && #[trigger] x.take(k) == y.take(k) && (k
                    == x.len() || x[k] < y[k]);
            assert forall|i: int| 0 <= i < k + 1 implies a[i] == b[i] by {
                if i > 0 {
                    assert(x.take(k)[i - 1] == y.take(k)[i - 1]);
                }
            }
            assert(a.take(k + 1) =~= b.take(k + 1));
        }
        if exists|k: int|
            0 <= k <= a.len() && k < b.len() && #[trigger] a.take(k) == b.take(k) && (k == a.len()
                || a[k] < b[k]) {
            let k = choose|k: int|
                0 <= k <= a.len() && k < b.len() && #[trigger] a.take(k) == b.take(k) && (k
                    == a.len() || a[k] < b[k]);
            assert forall|i: int| 0 <= i < k - 1 implies x[i] == y[i] by {
                assert(a.take(k)[i + 1] == b.take(k)[i + 1]);
            }
            assert(x.take(k - 1) =~= y.take(k - 1));
        }
    } else {
        assert(a.take(0) =~= b.take(0));
        assert forall|k: int|
            0 < k <= a.len() && k < b.len() && #[trigger] a.take(k) == b.take(k) implies a[0]
            == b[0] by {
            assert(a.take(k)[0] == b.take(k)[0]);
        }
    }
}

/// Whether one text comes before another.
pub fn comes_before(a: &str, b: &str) -> (r: bool)
    ensures
        r == before(a@, b@),
{
    let x = chars_of(a);
    let y = chars_of(b);
    let mut i: usize = 0;
    assert(a@.skip(0) =~= a@);
    assert(b@.skip(0) =~= b@);
    while i < x.len() && i < y.len() && x[i] == y[i]
        invariant
            i <= x@.len(),
            i <= y@.len(),
            x@ == a@,
            y@ == b@,
            before(a@.skip(i as int), b@.skip(i as int)) == before(a@, b@),
        decreases x@.len() - i,
    {
        proof {
            assert(a@.skip(i as int).drop_first() =~= a@.skip(i + 1));
            assert(b@.skip(i as int).drop_first() =~= b@.skip(i + 1));
        }
        i = i + 1;
    }
    if i == y.len() {
        false
    } else if i == x.len() {
        true
    } else {
        x[i] < y[i]
    }
}

/// Whether a list of texts is in order, with nothing twice.
pub open spec fn ordered(v: Seq<Seq<char>>) -> bool {
    forall|i: int, j: int| 0 <= i < j < v.len() ==> before(#[trigger] v[i], #[trigger] v[j])
}

/// A list of texts that is in order, with nothing twice, and holds exactly
/// the texts of another list.
pub open spec fn is_order_of(r: Seq<Seq<char>>, v: Seq<Seq<char>>) -> bool {
    ordered(r) && forall|t: Seq<char>| r.contains(t) <==> v.contains(t)
}

/// There is one such list.
pub proof fn lemma_order_unique(a: Seq<Seq<char>>, b: Seq<Seq<char>>)
    requires
        ordered(a),
        ordered(b),
        forall|t: Seq<char>| a.contains(t) <==> b.contains(t),
    ensures
        a == b,
    decreases a.len(),
{
    if a.len() == 0 {
        if b.len() > 0 {
            assert(b.contains(b[0]));
        }
        assert(a =~= b);
    } else if b.len() == 0 {
        assert(a.contains(a[0]));
    } else {
        let x = a.last();
        let y = b.last();
        assert(a.contains(x));
        assert(b.contains(y));
        if x != y {
            let i = choose|i: int| 0 <= i < b.len() && b[i] == x;
            let j = choose|j: int| 0 <= j < a.len() && a[j] == y;
            assert(before(b[i], b[b.len() - 1]));
            assert(before(a[j], a[a.len() - 1]));
            lemma_before_transitive(x, y, x);
            lemma_before_irreflexive(x);
        }
        let p = a.drop_last();
        let q = b.drop_last();
        assert forall|t: Seq<char>| p.contains(t) <==> q.contains(t) by {
            if p.contains(t) {
                let i = choose|i: int| 0 <= i < p.len() && p[i] == t;
                assert(a[i] == t);
                assert(a.contains(t));
                assert(before(a[i], a[a.len() - 1]));
                lemma_before_irreflexive(x);
                let k = choose|k: int| 0 <= k < b.len() && b[k] == t;
                assert(q[k] == t);
            }
            if q.contains(t) {
                let i = choose|i: int| 0 <= i < q.len() && q[i] == t;
                assert(b[i] == t);
                assert(b.contains(t));
                assert(before(b[i], b[b.len() - 1]));
                lemma_before_irreflexive(x);
                let k = choose|k: int| 0 <= k < a.len() && a[k] == t;
                assert(p[k] == t);
            }
        }
        assert(ordered(p)) by {
            assert forall|i: int, j: int| 0 <= i < j < p.len() implies before(
                #[trigger] p[i],
                #[trigger] p[j],
            ) by {
                assert(before(a[i], a[j]));
            }
        }
        assert(ordered(q)) by {
            assert forall|i: int, j: int| 0 <= i < j < q.len() implies before(
                #[trigger] q[i],
                #[trigger] q[j],
            ) by {
                assert(before(b[i], b[j]));
            }
        }
        lemma_order_unique(p, q);
        assert(a =~= p.push(x));
        assert(b =~= q.push(y));
    }
}

/// Puts a text into an ordered list, where it is not there yet.
pub fn put_in_order(v: &mut Vec<String>, t: &str)
    requires
        ordered(texts(old(v)@)),
    ensures
        ordered(texts(final(v)@)),
        forall|x: Seq<char>|
            texts(final(v)@).contains(x) <==> texts(old(v)@).contains(x) || x == t@,
        texts(old(v)@).contains(t@) ==> final(v)@ == old(v)@,
        !texts(old(v)@).contains(t@) ==> final(v)@.len() == old(v)@.len() + 1,
{
    let ghost was = texts(v@);
    let mut k: usize = 0;
    while k < v.len() && comes_before(v[k].as_str(), t)
        invariant
            k <= v@.len(),
            v@ == old(v)@,
            was == texts(v@),
            forall|i: int| 0 <= i < k ==> before(#[trigger] was[i], t@),
        decreases v@.len() - k,
    {
        assert(before(was[k as int], t@));
        k = k + 1;
    }
    if k < v.len() && crate::text::same(v[k].as_str(), t) {
        assert(was[k as int] == t@);
        return;
    }
    let s = text(t);
    v.insert(k, s);
    proof {
        let now = texts(v@);
        assert(now =~= was.insert(k as int, t@));
        assert forall|i: int| k <= i < was.len() implies before(t@, #[trigger] was[i]) by {
            lemma_before_total(t@, was[k as int]);
            if i > k {
                assert(before(was[k as int], was[i]));
                lemma_before_transitive(t@, was[k as int], was[i]);
            }
        }
        assert(!was.contains(t@)) by {
            if was.contains(t@) {
                let i = choose|i: int| 0 <= i < was.len() && was[i] == t@;
                lemma_before_irreflexive(t@);
                if i < k {
                    assert(before(was[i], t@));
                } else {
                    assert(before(t@, was[i]));
                }
            }
        }
        assert forall|i: int, j: int| 0 <= i < j < now.len() implies before(
            #[trigger] now[i],
            #[trigger] now[j],
        ) by {
            let a = if i < k { i } else { i - 1 };
            let b = if j < k { j } else { j - 1 };
            if i == k {
                assert(before(t@, was[b]));
            } else if j == k {
                assert(before(was[a], t@));
            } else {
                assert(before(was[a], was[b]));
            }
        }
        assert forall|x: Seq<char>| now.contains(x) <==> was.contains(x) || x == t@ by {
            if now.contains(x) {
                let i = choose|i: int| 0 <= i < now.len() && now[i] == x;
                if i < k {
                    assert(was[i] == x);
                } else if i > k {
                    assert(was[i - 1] == x);
                }
            }
            if was.contains(x) {
                let i = choose|i: int| 0 <= i < was.len() && was[i] == x;
                if i < k {
                    assert(now[i] == x);
                } else {
                    assert(now[i + 1] == x);
                }
            }
            if x == t@ {
                assert(now[k as int] == x);
            }
        }
    }
}

/// The texts of a list, in order, with nothing twice.
pub fn in_order(v: &Vec<String>) -> (r: Vec<String>)
    ensures
        is_order_of(texts(r@), texts(v@)),
{
    let ghost all = texts(v@);
    let mut r: Vec<String> = Vec::new();
    let mut i: usize = 0;
    while i < v.len()
        invariant
            i <= v@.len(),
            all == texts(v@),
            ordered(texts(r@)),
            forall|t: Seq<char>| texts(r@).contains(t) <==> all.take(i as int).contains(t),
        decreases v@.len() - i,
    {
        let ghost was = texts(r@);
        put_in_order(&mut r, v[i].as_str());
        proof {
            let next = all.take(i + 1);
            assert(next =~= all.take(i as int).push(all[i as int]));
            assert forall|t: Seq<char>| texts(r@).contains(t) <==> next.contains(t) by {
                if next.contains(t) {
                    let j = choose|j: int| 0 <= j < next.len() && next[j] == t;
                    if j < i {
                        assert(all.take(i as int)[j] == t);
                    }
                }
                if all.take(i as int).contains(t) {
                    let j = choose|j: int| 0 <= j < i && all.take(i as int)[j] == t;
                    assert(next[j] == t);
                }
                assert(next[i as int] == all[i as int]);
            }
        }
        i = i + 1;
    }
    assert(all.take(i as int) =~= all);
    r
}

} // verus!
