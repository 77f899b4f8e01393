//! Tokens: the ASCII-alphanumeric runs of 3 to 64 bytes in a chunk, exact
//! case, each counted once.

use crate::order::{before, lemma_before_total, lemma_before_transitive};
use vstd::prelude::*;
use vstd::slice::{slice_subrange, slice_to_vec};

verus! {

pub const MIN_TOKEN: usize = 3;

pub const MAX_TOKEN: usize = 64;

/// Whether a byte is an ASCII letter or digit.
pub open spec fn token_byte(b: u8) -> bool {
    48 <= b <= 57 || 65 <= b <= 90 || 97 <= b <= 122
}

/// Whether the bytes from `s` to `e` are a longest run of letters and digits.
pub open spec fn is_run(data: Seq<u8>, s: int, e: int) -> bool {
    &&& 0 <= s < e <= data.len()
    &&& forall|i: int| s <= i < e ==> token_byte(#[trigger] data[i])
    &&& s > 0 ==> !token_byte(data[s - 1])
    &&& e < data.len() ==> !token_byte(data[e])
}

/// Whether `t` is a token of the data: a longest run, neither too short nor
/// too long.
pub open spec fn is_token(data: Seq<u8>, t: Seq<u8>) -> bool {
    MIN_TOKEN <= t.len() <= MAX_TOKEN && exists|s: int|
        #[trigger] is_run(data, s, s + t.len()) && data.subrange(s, s + t.len()) == t
}

/// Bytes as text, a character each.
pub open spec fn as_text(b: Seq<u8>) -> Seq<char> {
    Seq::new(b.len(), |i: int| b[i] as char)
}

/// Whether a list of tokens is in the order of their bytes, with nothing twice.
pub open spec fn tokens_ordered(v: Seq<Seq<u8>>) -> bool {
    forall|i: int, j: int|
        0 <= i < j < v.len() ==> before(as_text(#[trigger] v[i]), as_text(#[trigger] v[j]))
}

/// What a list of byte strings is.
pub open spec fn byte_texts(v: Seq<Vec<u8>>) -> Seq<Seq<u8>> {
    Seq::new(v.len(), |i: int| v[i]@)
}

proof fn lemma_as_text_injective(a: Seq<u8>, b: Seq<u8>)
    requires
        as_text(a) == as_text(b),
    ensures
        a == b,
{
    assert(as_text(a).len() == a.len() && as_text(b).len() == b.len());
    assert forall|i: int| 0 <= i < a.len() implies a[i] == b[i] by {
        let x = a[i];
        let y = b[i];
        assert(as_text(a)[i] == x as char && as_text(b)[i] == y as char);
        assert((x as char) as u32 == x && (y as char) as u32 == y);
        assert((x as char) as u32 == (y as char) as u32);
    }
    assert(a =~= b);
}

fn bytes_before(a: &[u8], b: &[u8]) -> (r: bool)
    ensures
        r == before(as_text(a@), as_text(b@)),
{
    let ghost x = as_text(a@);
    let ghost y = as_text(b@);
    let mut i: usize = 0;
    assert(x.skip(0) =~= x);
    assert(y.skip(0) =~= y);
    while i < a.len() && i < b.len() && a[i] == b[i]
        invariant
            i <= a@.len(),
            i <= b@.len(),
            x == as_text(a@),
            y == as_text(b@),
            before(x.skip(i as int), y.skip(i as int)) == before(x, y),
        decreases a@.len() - i,
    {
        proof {
            assert(x.skip(i as int).drop_first() =~= x.skip(i + 1));
            assert(y.skip(i as int).drop_first() =~= y.skip(i + 1));
        }
        i = i + 1;
    }
    if i == b.len() {
        false
    } else if i == a.len() {
        true
    } else {
        proof {
            let p = a@[i as int];
            let q = b@[i as int];
            assert(p as char as u32 == p && q as char as u32 == q);
            assert(x.skip(i as int)[0] == p as char && y.skip(i as int)[0] == q as char);
        }
        a[i] < b[i]
    }
}

fn same_bytes(a: &[u8], b: &[u8]) -> (r: bool)
    ensures
        r == (a@ == b@),
{
    if a.len() != b.len() {
        return false;
    }
    let mut i: usize = 0;
    while i < a.len()
        invariant
            i <= a@.len(),
            a@.len() == b@.len(),
            forall|j: int| 0 <= j < i ==> a@[j] == b@[j],
        decreases a@.len() - i,
    {
        if a[i] != b[i] {
            return false;
        }
        i = i + 1;
    }
    assert(a@ =~= b@);
    true
}

/// Puts a token into an ordered list, where it is not there yet.
fn put_token(v: &mut Vec<Vec<u8>>, t: &[u8])
    requires
        tokens_ordered(byte_texts(old(v)@)),
    ensures
        tokens_ordered(byte_texts(final(v)@)),
        forall|x: Seq<u8>|
            #[trigger] byte_texts(final(v)@).contains(x) <==> byte_texts(old(v)@).contains(x) || x
                == t@,
        final(v)@.len() <= old(v)@.len() + 1,
{
    let ghost was = byte_texts(v@);
    let ghost tt = as_text(t@);
    let mut k: usize = 0;
    while k < v.len() && bytes_before(v[k].as_slice(), t)
        invariant
            k <= v@.len(),
            v@ == old(v)@,
            was == byte_texts(v@),
            tt == as_text(t@),
            forall|i: int| 0 <= i < k ==> before(as_text(#[trigger] was[i]), tt),
        decreases v@.len() - k,
    {
        assert(before(as_text(was[k as int]), tt));
        k = k + 1;
    }
    if k < v.len() && same_bytes(v[k].as_slice(), t) {
        assert(was[k as int] == t@);
        return;
    }
    let s: Vec<u8> = slice_to_vec(t);
    v.insert(k, s);
    proof {
        let now = byte_texts(v@);
        assert(now =~= was.insert(k as int, t@));
        assert forall|i: int| k <= i < was.len() implies before(tt, as_text(#[trigger] was[i])) by {
            lemma_before_total(tt, as_text(was[k as int]));
            if tt == as_text(was[k as int]) {
                lemma_as_text_injective(t@, was[k as int]);
            }
            if i > k {
                assert(before(as_text(was[k as int]), as_text(was[i])));
                lemma_before_transitive(tt, as_text(was[k as int]), as_text(was[i]));
            }
        }
        assert forall|i: int, j: int| 0 <= i < j < now.len() implies before(
            as_text(#[trigger] now[i]),
            as_text(#[trigger] now[j]),
        ) by {
            let a = if i < k { i } else { i - 1 };
            let b = if j < k { j } else { j - 1 };
            if i == k {
                assert(before(tt, as_text(was[b])));
            } else if j == k {
                assert(before(as_text(was[a]), tt));
            } else {
                assert(before(as_text(was[a]), as_text(was[b])));
            }
        }
        assert forall|x: Seq<u8>| #[trigger] now.contains(x) <==> was.contains(x) || x == t@ by {
            if now.contains(x) {
                let i = choose|i: int| 0 <= i < now.len() && now[i] == x;
                if i < k {
                    assert(was[i] == x);
                } else if i > k {
                    assert(was[i - 1] == x);
                }
            }
            if was.contains(x) {
                let i = choose|i: int| 0 <= i < was.len() && was[i] == x;
                if i < k {
                    assert(now[i] == x);
                } else {
                    assert(now[i + 1] == x);
                }
            }
            if x == t@ {
                assert(now[k as int] == x);
            }
        }
    }
}

fn is_token_byte(b: u8) -> (r: bool)
    ensures
        r == token_byte(b),
{
    (48 <= b && b <= 57) || (65 <= b && b <= 90) || (97 <= b && b <= 122)
}

/// Whether `t` is a token of the data that ends before `e`, or at it.
spec fn token_up_to(data: Seq<u8>, t: Seq<u8>, e: int) -> bool {
    MIN_TOKEN <= t.len() <= MAX_TOKEN && exists|s: int|
        #[trigger] is_run(data, s, s + t.len()) && data.subrange(s, s + t.len()) == t && s + t.len()
            <= e
}

/// A run that ends at `e` is the one that starts at `s`.
proof fn lemma_run_ending(data: Seq<u8>, s: int, e: int, a: int)
    requires
        is_run(data, s, e),
        is_run(data, a, e),
    ensures
        a == s,
{
    if a < s {
        assert(token_byte(data[s - 1]));
    }
    if s < a {
        assert(token_byte(data[a - 1]));
    }
}

/// The distinct tokens of the data, in the order of their bytes.
pub fn tokenize(data: &[u8]) -> (r: Vec<Vec<u8>>)
    ensures
        tokens_ordered(byte_texts(r@)),
        forall|t: Seq<u8>| #[trigger] byte_texts(r@).contains(t) <==> is_token(data@, t),
        r@.len() * 4 <= data@.len() + 1,
{
    let mut out: Vec<Vec<u8>> = Vec::new();
    let mut start: Option<usize> = None;
    let mut i: usize = 0;
    proof {
        assert forall|t: Seq<u8>| #[trigger] byte_texts(out@).contains(t) <==> token_up_to(
            data@,
            t,
            0,
        ) by {}
    }
    while i < data.len()
        invariant
            i <= data@.len(),
            tokens_ordered(byte_texts(out@)),
            forall|t: Seq<u8>| #[trigger]
                byte_texts(out@).contains(t) <==> token_up_to(
                    data@,
                    t,
                    match start {
                        Some(s) => s as int,
                        None => i as int,
                    },
                ),
            match start {
                Some(s) => {
                    &&& s < i
                    &&& forall|j: int| s <= j < i ==> token_byte(#[trigger] data@[j])
                    &&& s > 0 ==> !token_byte(data@[s - 1])
                    &&& out@.len() * 4 <= s
                },
                None => (i > 0 ==> !token_byte(data@[i - 1])) && out@.len() * 4 <= i,
            },
        decreases data@.len() - i,
    {
        if is_token_byte(data[i]) {
            if start.is_none() {
                start = Some(i);
            }
        } else {
            if let Some(s) = start {
                let len: usize = i - s;
                let ghost run = data@.subrange(s as int, i as int);
                let ghost was = byte_texts(out@);
                assert(is_run(data@, s as int, i as int));
                if MIN_TOKEN <= len && len <= MAX_TOKEN {
                    put_token(&mut out, slice_subrange(data, s, i));
                }
                proof {
                    lemma_next_run(data@, s as int, i as int, was, byte_texts(out@));
                    lemma_gap(data@, i as int);
                }
                start = None;
            } else {
                proof {
                    lemma_gap(data@, i as int);
                }
            }
        }
        i = i + 1;
    }
    if let Some(s) = start {
        let len: usize = data.len() - s;
        let ghost was = byte_texts(out@);
        assert(is_run(data@, s as int, data@.len() as int));
        if MIN_TOKEN <= len && len <= MAX_TOKEN {
            put_token(&mut out, slice_subrange(data, s, data.len()));
        }
        proof {
            lemma_next_run(data@, s as int, data@.len() as int, was, byte_texts(out@));
        }
    }
    proof {
        assert forall|t: Seq<u8>| #[trigger] byte_texts(out@).contains(t) <==> is_token(
            data@,
            t,
        ) by {
            if is_token(data@, t) {
                assert(token_up_to(data@, t, data@.len() as int));
            }
            if token_up_to(data@, t, data@.len() as int) {
                assert(is_token(data@, t));
            }
        }
    }
    out
}

/// What closing a run adds to the tokens seen.
proof fn lemma_next_run(data: Seq<u8>, s: int, e: int, was: Seq<Seq<u8>>, now: Seq<Seq<u8>>)
    requires
        is_run(data, s, e),
        forall|t: Seq<u8>| #[trigger] was.contains(t) <==> token_up_to(data, t, s),
        if MIN_TOKEN <= e - s <= MAX_TOKEN {
            forall|t: Seq<u8>| #[trigger]
                now.contains(t) <==> was.contains(t) || t == data.subrange(s, e)
        } else {
            now == was
        },
    ensures
        forall|t: Seq<u8>| #[trigger] now.contains(t) <==> token_up_to(data, t, e),
{
    let run = data.subrange(s, e);
    assert forall|t: Seq<u8>| #[trigger] now.contains(t) <==> token_up_to(data, t, e) by {
        assert(was.contains(t) <==> token_up_to(data, t, s));
        if was.contains(t) {
            let a = choose|a: int|
                #[trigger] is_run(data, a, a + t.len()) && data.subrange(a, a + t.len()) == t && a
                    + t.len() <= s;
            assert(is_run(data, a, a + t.len()));
        }
        if t == run && MIN_TOKEN <= e - s <= MAX_TOKEN {
            assert(is_run(data, s, s + t.len()));
        }
        if token_up_to(data, t, e) {
            let a = choose|a: int|
                #[trigger] is_run(data, a, a + t.len()) && data.subrange(a, a + t.len()) == t && a
                    + t.len() <= e;
            let b = a + t.len();
            if b > s {
                // It reaches into this run, so it is this run.
                if b < e {
                    assert(token_byte(data[b]));
                }
                lemma_run_ending(data, s, e, a);
            } else {
                assert(is_run(data, a, a + t.len()) && a + t.len() <= s);
            }
        }
    }
}

/// A separator ends no run and starts none.
proof fn lemma_gap(data: Seq<u8>, i: int)
    requires
        0 <= i < data.len(),
        !token_byte(data[i]),
    ensures
        forall|t: Seq<u8>| #[trigger] token_up_to(data, t, i) <==> token_up_to(data, t, i + 1),
{
    assert forall|t: Seq<u8>| #[trigger] token_up_to(data, t, i) <==> token_up_to(
        data,
        t,
        i + 1,
    ) by {
        if token_up_to(data, t, i) {
            let a = choose|a: int|
                #[trigger] is_run(data, a, a + t.len()) && data.subrange(a, a + t.len()) == t && a
                    + t.len() <= i;
            assert(is_run(data, a, a + t.len()));
        }
        if token_up_to(data, t, i + 1) {
            let a = choose|a: int|
                #[trigger] is_run(data, a, a + t.len()) && data.subrange(a, a + t.len()) == t && a
                    + t.len() <= i + 1;
            if a + t.len() == i + 1 {
                assert(token_byte(data[i]));
            }
            assert(is_run(data, a, a + t.len()));
        }
    }
}

} // verus!
