//! Records on a pipe: a marked kind, separated fields, a terminating NUL.

use crate::tokens::byte_texts;
use vstd::prelude::*;
use vstd::slice::{slice_subrange, slice_to_vec};
use vstd::utf8::{decode_utf8, encode_scalar, encode_utf8, valid_utf8};

verus! {

/// The byte that marks the start of a record.
pub const RS: u8 = 0x1e;

/// The byte between the fields of a record.
pub const US: u8 = 0x1f;

/// Bytes that are no UTF-8 as text, with replacement characters.
pub uninterp spec fn replaced(b: Seq<u8>) -> Seq<char>;

/// Bytes as text, with what is no UTF-8 replaced.
pub open spec fn lossy(b: Seq<u8>) -> Seq<char> {
    if valid_utf8(b) {
        decode_utf8(b)
    } else {
        replaced(b)
    }
}

/// `String::from_utf8_lossy`: the text that the bytes spell, with a
/// replacement character for what is no UTF-8.
#[verifier::external_body]
pub(crate) fn lossy_text(b: &[u8]) -> (r: String)
    ensures
        r@ == (if valid_utf8(b@) {
            decode_utf8(b@)
        } else {
            replaced(b@)
        }),
{
    String::from_utf8_lossy(b).into_owned()
}

/// Where a byte first stands; the length where it stands nowhere.
pub open spec fn find_byte(s: Seq<u8>, x: u8) -> int
    decreases s.len(),
{
    if s.len() == 0 || s[0] == x {
        0
    } else {
        1 + find_byte(s.drop_first(), x)
    }
}

/// The runs of bytes between the occurrences of a byte.
pub open spec fn split_bytes(s: Seq<u8>, x: u8) -> Seq<Seq<u8>>
    decreases s.len(),
{
    let k = find_byte(s, x);
    if 0 <= k < s.len() {
        seq![s.take(k)] + split_bytes(s.skip(k + 1), x)
    } else {
        seq![s]
    }
}

/// Whether a byte stands nowhere.
pub open spec fn lacks(s: Seq<u8>, x: u8) -> bool {
    forall|i: int| 0 <= i < s.len() ==> #[trigger] s[i] != x
}

pub proof fn lemma_find_byte_is(s: Seq<u8>, x: u8, k: int)
    requires
        0 <= k <= s.len(),
        forall|i: int| 0 <= i < k ==> #[trigger] s[i] != x,
        k < s.len() ==> s[k] == x,
    ensures
        find_byte(s, x) == k,
    decreases k,
{
    if k > 0 {
        let t = s.drop_first();
        assert(s[0] != x);
        assert forall|i: int| 0 <= i < k - 1 implies #[trigger] t[i] != x by {
            assert(t[i] == s[i + 1]);
        }
        lemma_find_byte_is(t, x, k - 1);
    }
}

/// What stands before a separator is the first part.
pub proof fn lemma_split_first(a: Seq<u8>, x: u8, b: Seq<u8>)
    requires
        lacks(a, x),
    ensures
        find_byte(a + seq![x] + b, x) == a.len(),
        split_bytes(a + seq![x] + b, x) == seq![a] + split_bytes(b, x),
        find_byte(a, x) == a.len(),
        split_bytes(a, x) == seq![a],
{
    let s = a + seq![x] + b;
    assert forall|i: int| 0 <= i < a.len() implies #[trigger] s[i] != x by {
        assert(s[i] == a[i]);
    }
    lemma_find_byte_is(s, x, a.len() as int);
    lemma_find_byte_is(a, x, a.len() as int);
    assert(s.take(a.len() as int) =~= a);
    assert(s.skip(a.len() as int + 1) =~= b);
}

pub proof fn lemma_find_byte(s: Seq<u8>, x: u8)
    ensures
        0 <= find_byte(s, x) <= s.len(),
        forall|i: int| 0 <= i < find_byte(s, x) ==> #[trigger] s[i] != x,
        find_byte(s, x) < s.len() ==> s[find_byte(s, x)] == x,
    decreases s.len(),
{
    if s.len() > 0 && s[0] != x {
        let t = s.drop_first();
        lemma_find_byte(t, x);
        assert forall|i: int| 0 <= i < find_byte(s, x) implies #[trigger] s[i] != x by {
            if i > 0 {
                assert(s[i] == t[i - 1]);
            }
        }
    }
}

/// What stands behind the last separator is the last part.
pub proof fn lemma_split_last(a: Seq<u8>, x: u8, b: Seq<u8>)
    requires
        lacks(b, x),
    ensures
        split_bytes(a + seq![x] + b, x) == split_bytes(a, x).push(b),
    decreases a.len(),
{
    let s = a + seq![x] + b;
    let k = find_byte(a, x);
    lemma_find_byte(a, x);
    if k < a.len() {
        assert forall|i: int| 0 <= i < k implies #[trigger] s[i] != x by {
            assert(s[i] == a[i]);
        }
        assert(s[k] == x);
        lemma_find_byte_is(s, x, k);
        let t = a.skip(k + 1);
        lemma_split_last(t, x, b);
        assert(s.take(k) =~= a.take(k));
        assert(s.skip(k + 1) =~= t + seq![x] + b);
        let first = seq![a.take(k)];
        assert(first + split_bytes(t, x).push(b) =~= (first + split_bytes(t, x)).push(b));
    } else {
        assert(lacks(a, x)) by {
            assert forall|i: int| 0 <= i < a.len() implies #[trigger] a[i] != x by {}
        }
        lemma_split_first(a, x, b);
        lemma_split_first(b, x, Seq::empty());
        assert(seq![a] + seq![b] =~= seq![a].push(b));
    }
}

/// Where a byte first stands; the length where it stands nowhere.
pub fn position_of(s: &[u8], x: u8) -> (k: usize)
    ensures
        k == find_byte(s@, x),
        k <= s@.len(),
        forall|i: int| 0 <= i < k ==> #[trigger] s@[i] != x,
        k < s@.len() ==> s@[k as int] == x,
{
    let mut k: usize = 0;
    while k < s.len() && s[k] != x
        invariant
            k <= s@.len(),
            forall|i: int| 0 <= i < k ==> #[trigger] s@[i] != x,
        decreases s@.len() - k,
    {
        k = k + 1;
    }
    proof {
        lemma_find_byte_is(s@, x, k as int);
    }
    k
}

/// The runs of bytes between the occurrences of a byte.
pub fn split(s: &[u8], x: u8) -> (r: Vec<Vec<u8>>)
    ensures
        byte_texts(r@) == split_bytes(s@, x),
        r@.len() > 0,
{
    let mut out: Vec<Vec<u8>> = Vec::new();
    let mut at: usize = 0;
    assert(s@.skip(0) =~= s@);
    assert(byte_texts(out@) + split_bytes(s@.skip(0), x) =~= split_bytes(s@, x));
    loop
        invariant
            at <= s@.len(),
            byte_texts(out@) + split_bytes(s@.skip(at as int), x) == split_bytes(s@, x),
        decreases s@.len() - at,
    {
        let rest: &[u8] = slice_subrange(s, at, s.len());
        assert(rest@ =~= s@.skip(at as int));
        let k: usize = position_of(rest, x);
        let ghost done = byte_texts(out@);
        if k < rest.len() {
            let part: Vec<u8> = slice_to_vec(slice_subrange(rest, 0, k));
            assert(part@ =~= rest@.take(k as int));
            proof {
                let tail = split_bytes(rest@.skip(k + 1), x);
                assert(done + (seq![part@] + tail) =~= done.push(part@) + tail);
                assert(byte_texts(out@.push(part)) =~= done.push(part@));
                assert(rest@.skip(k + 1) =~= s@.skip(at + k + 1));
            }
            out.push(part);
            at = at + k + 1;
        } else {
            let part: Vec<u8> = slice_to_vec(rest);
            proof {
                assert(byte_texts(out@.push(part)) =~= done.push(part@));
                assert(done + seq![part@] =~= done.push(part@));
            }
            out.push(part);
            return out;
        }
    }
}

/// Whether two runs of bytes are the same.
pub fn same_run(a: &[u8], b: &[u8]) -> (r: bool)
    ensures
        r == (a@ == b@),
{
    if a.len() != b.len() {
        return false;
    }
    let mut i: usize = 0;
    while i < a.len()
        invariant
            i <= a@.len(),
            a@.len() == b@.len(),
            forall|j: int| 0 <= j < i ==> a@[j] == b@[j],
        decreases a@.len() - i,
    {
        if a[i] != b[i] {
            return false;
        }
        i = i + 1;
    }
    assert(a@ =~= b@);
    true
}

// --------------------------------------------------------------------- utf8

/// A text's bytes are the bytes of its parts, one after the other.
pub proof fn lemma_encode_concat(a: Seq<char>, b: Seq<char>)
    ensures
        encode_utf8(a + b) == encode_utf8(a) + encode_utf8(b),
    decreases a.len(),
{
    if a.len() == 0 {
        assert(a + b =~= b);
        assert(encode_utf8(a) + encode_utf8(b) =~= encode_utf8(b));
    } else {
        lemma_encode_concat(a.drop_first(), b);
        assert((a + b).drop_first() =~= a.drop_first() + b);
        let x = encode_scalar(a[0] as u32);
        let y = encode_utf8(a.drop_first());
        assert(x + (y + encode_utf8(b)) =~= (x + y) + encode_utf8(b));
    }
}

/// A character's bytes: an ASCII character's is its number, and any other's
/// are all above ASCII.
proof fn lemma_scalar(c: u32)
    ensures
        c < 0x80 ==> encode_scalar(c) == seq![c as u8],
        c >= 0x80 ==> forall|i: int|
            0 <= i < encode_scalar(c).len() ==> #[trigger] encode_scalar(c)[i] >= 0x80,
{
    if c < 0x80 {
        assert(c < 0x80 ==> (c & 0x7F) as u8 == c as u8) by (bit_vector);
        assert(encode_scalar(c) =~= seq![c as u8]);
    } else {
        assert(forall|x: u8| #[trigger] (0x80u8 | x) >= 0x80) by (bit_vector);
        assert(forall|x: u8| #[trigger] (0xC0u8 | x) >= 0x80) by (bit_vector);
        assert(forall|x: u8| #[trigger] (0xE0u8 | x) >= 0x80) by (bit_vector);
        assert(forall|x: u8| #[trigger] (0xF0u8 | x) >= 0x80) by (bit_vector);
    }
}

/// An ASCII text's bytes are its characters' numbers.
pub proof fn lemma_encode_ascii(s: Seq<char>)
    requires
        forall|i: int| 0 <= i < s.len() ==> (#[trigger] s[i]) as u32 <= 0x7f,
    ensures
        encode_utf8(s) == Seq::new(s.len(), |i: int| (s[i] as u32) as u8),
    decreases s.len(),
{
    if s.len() == 0 {
        assert(encode_utf8(s) =~= Seq::new(0, |i: int| (s[i] as u32) as u8));
    } else {
        let t = s.drop_first();
        assert forall|i: int| 0 <= i < t.len() implies (#[trigger] t[i]) as u32 <= 0x7f by {
            assert(t[i] == s[i + 1]);
        }
        lemma_encode_ascii(t);
        assert(s[0] as u32 <= 0x7f);
        lemma_scalar(s[0] as u32);
        assert(encode_utf8(s) =~= Seq::new(s.len(), |i: int| (s[i] as u32) as u8)) by {
            let want = Seq::new(s.len(), |i: int| (s[i] as u32) as u8);
            assert forall|i: int| 0 <= i < s.len() implies encode_utf8(s)[i] == want[i] by {
                if i > 0 {
                    assert(encode_utf8(s)[i] == encode_utf8(t)[i - 1]);
                    assert(t[i - 1] == s[i]);
                }
            }
        }
    }
}

/// A byte below 0x80 that a text's bytes hold is a character of the text.
pub proof fn lemma_encode_lacks(s: Seq<char>, x: u8)
    requires
        x < 0x80,
        forall|i: int| 0 <= i < s.len() ==> (#[trigger] s[i]) as u32 != x,
    ensures
        lacks(encode_utf8(s), x),
    decreases s.len(),
{
    if s.len() > 0 {
        let t = s.drop_first();
        assert forall|i: int| 0 <= i < t.len() implies (#[trigger] t[i]) as u32 != x by {
            assert(t[i] == s[i + 1]);
        }
        lemma_encode_lacks(t, x);
        assert(s[0] as u32 != x);
        lemma_scalar(s[0] as u32);
        let a = encode_scalar(s[0] as u32);
        let b = encode_utf8(t);
        assert forall|i: int| 0 <= i < encode_utf8(s).len() implies #[trigger] encode_utf8(s)[i]
            != x by {
            if i < a.len() {
                assert(encode_utf8(s)[i] == a[i]);
            } else {
                assert(encode_utf8(s)[i] == b[i - a.len()]);
            }
        }
    }
}

} // verus!
