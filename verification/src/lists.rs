//! Lists, and what they hold.

use vstd::prelude::*;

verus! {

/// A list with one more holds what it held and that.
pub proof fn lemma_push<T>(v: Seq<T>, x: T, t: T)
    ensures
        v.push(x).contains(t) <==> v.contains(t) || t == x,
{
    if v.contains(t) {
        let i = choose|i: int| 0 <= i < v.len() && v[i] == t;
        assert(v.push(x)[i] == t);
    }
    assert(v.push(x)[v.len() as int] == x);
}

} // verus!
