//! A store's identity: sixteen bytes, and the hyphenated text that manifests
//! hold.

use crate::text::{chars_of, hex_char, hex_digit};
use vstd::prelude::*;

verus! {

/// What a hexadecimal digit is worth.
pub open spec fn hex_value(c: char) -> Option<nat> {
    if '0' <= c && c <= '9' {
        Some((c as u32 - '0' as u32) as nat)
    } else if 'a' <= c && c <= 'f' {
        Some((c as u32 - 'a' as u32 + 10) as nat)
    } else if 'A' <= c && c <= 'F' {
        Some((c as u32 - 'A' as u32 + 10) as nat)
    } else {
        None
    }
}

/// A text without its hyphens.
pub open spec fn without_hyphens(s: Seq<char>) -> Seq<char>
    decreases s.len(),
{
    if s.len() == 0 {
        s
    } else if s.last() == '-' {
        without_hyphens(s.drop_last())
    } else {
        without_hyphens(s.drop_last()).push(s.last())
    }
}

/// Whether a text is 32 hexadecimal digits, hyphens aside.
pub open spec fn is_uuid(s: Seq<char>) -> bool {
    let h = without_hyphens(s);
    h.len() == 32 && forall|i: int| 0 <= i < 32 ==> hex_value(#[trigger] h[i]) is Some
}

/// The byte that two digits spell.
pub open spec fn hex_pair(hi: char, lo: char) -> u8 {
    (hex_value(hi)->Some_0 * 16 + hex_value(lo)->Some_0) as u8
}

/// The sixteen bytes that a text spells: nothing, for what is not a uuid.
pub open spec fn uuid_of(s: Seq<char>) -> Option<Seq<u8>> {
    let h = without_hyphens(s);
    if is_uuid(s) {
        Some(Seq::new(16, |i: int| hex_pair(h[2 * i], h[2 * i + 1])))
    } else {
        None
    }
}

/// Bytes in lowercase hexadecimal.
pub open spec fn hex(b: Seq<u8>) -> Seq<char>
    decreases b.len(),
{
    if b.len() == 0 {
        Seq::empty()
    } else {
        hex(b.drop_last()).push(hex_char(b.last() as nat / 16)).push(hex_char(b.last() as nat % 16))
    }
}

/// Sixteen bytes as hyphenated text.
pub open spec fn uuid_chars(b: Seq<u8>) -> Seq<char> {
    hex(b.subrange(0, 4)) + seq!['-'] + hex(b.subrange(4, 6)) + seq!['-'] + hex(b.subrange(6, 8))
        + seq!['-'] + hex(b.subrange(8, 10)) + seq!['-'] + hex(b.subrange(10, 16))
}

fn hex_digit_value(c: char) -> (r: Option<u8>)
    ensures
        match r {
            Some(d) => hex_value(c) == Some(d as nat) && d < 16,
            None => hex_value(c) is None,
        },
{
    if '0' <= c && c <= '9' {
        Some((c as u32 - '0' as u32) as u8)
    } else if 'a' <= c && c <= 'f' {
        Some((c as u32 - 'a' as u32 + 10) as u8)
    } else if 'A' <= c && c <= 'F' {
        Some((c as u32 - 'A' as u32 + 10) as u8)
    } else {
        None
    }
}

/// The sixteen bytes that a text spells: nothing, for what is not a uuid.
pub fn parse_uuid(s: &str) -> (r: Option<[u8; 16]>)
    ensures
        match r {
            Some(b) => uuid_of(s@) == Some(b@),
            None => uuid_of(s@) is None,
        },
{
    let cs = chars_of(s);
    let mut h: Vec<char> = Vec::new();
    let mut i: usize = 0;
    assert(cs@.take(0) =~= Seq::empty());
    while i < cs.len()
        invariant
            i <= cs@.len(),
            h@ == without_hyphens(cs@.take(i as int)),
        decreases cs@.len() - i,
    {
        proof {
            assert(cs@.take(i + 1).drop_last() =~= cs@.take(i as int));
            assert(cs@.take(i + 1).last() == cs@[i as int]);
        }
        if cs[i] != '-' {
            h.push(cs[i]);
        }
        i = i + 1;
    }
    assert(cs@.take(i as int) =~= s@);
    if h.len() != 32 {
        return None;
    }
    let mut out: [u8; 16] = [0; 16];
    let mut k: usize = 0;
    while k < 16
        invariant
            k <= 16,
            h@ == without_hyphens(s@),
            h@.len() == 32,
            forall|j: int| 0 <= j < 2 * k ==> hex_value(#[trigger] h@[j]) is Some,
            forall|j: int|
                0 <= j < k ==> #[trigger] out@[j] == hex_pair(h@[2 * j], h@[2 * j + 1]),
        decreases 16 - k,
    {
        match (hex_digit_value(h[2 * k]), hex_digit_value(h[2 * k + 1])) {
            (Some(hi), Some(lo)) => {
                out[k] = hi * 16 + lo;
                assert(out@[k as int] == hex_pair(h@[2 * k], h@[2 * k + 1]));
            },
            _ => {
                assert(hex_value(h@[2 * k]) is None || hex_value(h@[2 * k + 1]) is None);
                return None;
            },
        }
        k = k + 1;
    }
    assert(out@ =~= uuid_of(s@)->Some_0);
    Some(out)
}

fn put_hex(out: &mut Vec<char>, b: &[u8; 16], from: usize, to: usize)
    requires
        from <= to <= 16,
    ensures
        final(out)@ == old(out)@ + hex(b@.subrange(from as int, to as int)),
{
    let mut i: usize = from;
    assert(b@.subrange(from as int, from as int) =~= Seq::empty());
    assert(out@ =~= old(out)@ + hex(b@.subrange(from as int, i as int)));
    while i < to
        invariant
            from <= i <= to <= 16,
            out@ == old(out)@ + hex(b@.subrange(from as int, i as int)),
        decreases to - i,
    {
        proof {
            let next = b@.subrange(from as int, i + 1);
            assert(next.drop_last() =~= b@.subrange(from as int, i as int));
            assert(next.last() == b@[i as int]);
        }
        out.push(hex_digit(b[i] / 16));
        out.push(hex_digit(b[i] % 16));
        i = i + 1;
        assert(out@ =~= old(out)@ + hex(b@.subrange(from as int, i as int)));
    }
}

/// Sixteen bytes as hyphenated text: the spelling manifests hold, so that two
/// views of one identity are comparable as text.
pub fn uuid_spelled(b: &[u8; 16]) -> (r: String)
    ensures
        r@ == uuid_chars(b@),
{
    let mut out: Vec<char> = Vec::new();
    put_hex(&mut out, b, 0, 4);
    out.push('-');
    put_hex(&mut out, b, 4, 6);
    out.push('-');
    put_hex(&mut out, b, 6, 8);
    out.push('-');
    put_hex(&mut out, b, 8, 10);
    out.push('-');
    put_hex(&mut out, b, 10, 16);
    assert(out@ =~= uuid_chars(b@));
    crate::text::text_of(out.as_slice())
}

proof fn lemma_hex(b: Seq<u8>)
    ensures
        hex(b).len() == 2 * b.len(),
        forall|i: int| 0 <= i < hex(b).len() ==> #[trigger] hex(b)[i] != '-',
        forall|i: int|
            0 <= i < b.len() ==> hex_value(#[trigger] hex(b)[2 * i]) == Some(b[i] as nat / 16),
        forall|i: int|
            0 <= i < b.len() ==> hex_value(#[trigger] hex(b)[2 * i + 1]) == Some(
                b[i] as nat % 16,
            ),
    decreases b.len(),
{
    if b.len() > 0 {
        let init = b.drop_last();
        lemma_hex(init);
        let hi = hex_char(b.last() as nat / 16);
        let lo = hex_char(b.last() as nat % 16);
        assert(hex_value(hi) == Some(b.last() as nat / 16) && hi != '-');
        assert(hex_value(lo) == Some(b.last() as nat % 16) && lo != '-');
        assert(hex(b) == hex(init).push(hi).push(lo));
        assert forall|i: int| 0 <= i < b.len() implies hex_value(#[trigger] hex(b)[2 * i]) == Some(
            b[i] as nat / 16,
        ) by {
            if i < init.len() {
                assert(hex(b)[2 * i] == hex(init)[2 * i]);
            }
        }
        assert forall|i: int| 0 <= i < b.len() implies hex_value(#[trigger] hex(b)[2 * i + 1])
            == Some(b[i] as nat % 16) by {
            if i < init.len() {
                assert(hex(b)[2 * i + 1] == hex(init)[2 * i + 1]);
            }
        }
    }
}

proof fn lemma_no_hyphen(s: Seq<char>, t: Seq<char>)
    requires
        forall|i: int| 0 <= i < t.len() ==> #[trigger] t[i] != '-',
    ensures
        without_hyphens(s + t) == without_hyphens(s) + t,
        without_hyphens(s + seq!['-']) == without_hyphens(s),
    decreases t.len(),
{
    assert((s + seq!['-']).drop_last() =~= s);
    if t.len() == 0 {
        assert(s + t =~= s);
        assert(without_hyphens(s) + t =~= without_hyphens(s));
    } else {
        let init = t.drop_last();
        lemma_no_hyphen(s, init);
        assert((s + t).drop_last() =~= s + init);
        assert(t[t.len() - 1] != '-');
        assert(without_hyphens(s) + t =~= (without_hyphens(s) + init).push(t.last()));
    }
}

/// Sixteen bytes written as text read back as the same bytes.
pub proof fn uuids_round_trip(b: Seq<u8>)
    requires
        b.len() == 16,
    ensures
        uuid_of(uuid_chars(b)) == Some(b),
{
    let none = Seq::<char>::empty();
    let dash = seq!['-'];
    let h1 = hex(b.subrange(0, 4));
    let h2 = hex(b.subrange(4, 6));
    let h3 = hex(b.subrange(6, 8));
    let h4 = hex(b.subrange(8, 10));
    let h5 = hex(b.subrange(10, 16));
    lemma_hex(b.subrange(0, 4));
    lemma_hex(b.subrange(4, 6));
    lemma_hex(b.subrange(6, 8));
    lemma_hex(b.subrange(8, 10));
    lemma_hex(b.subrange(10, 16));
    lemma_no_hyphen(none, h1);
    assert(none + h1 =~= h1);
    assert(without_hyphens(none) + h1 =~= h1);
    lemma_no_hyphen(h1, none);
    lemma_no_hyphen(h1 + dash, h2);
    lemma_no_hyphen(h1 + dash + h2, none);
    lemma_no_hyphen(h1 + dash + h2 + dash, h3);
    lemma_no_hyphen(h1 + dash + h2 + dash + h3, none);
    lemma_no_hyphen(h1 + dash + h2 + dash + h3 + dash, h4);
    lemma_no_hyphen(h1 + dash + h2 + dash + h3 + dash + h4, none);
    lemma_no_hyphen(h1 + dash + h2 + dash + h3 + dash + h4 + dash, h5);
    let h = without_hyphens(uuid_chars(b));
    assert(h == h1 + h2 + h3 + h4 + h5);
    assert forall|i: int| 0 <= i < 16 implies hex_value(#[trigger] h[2 * i]) == Some(
        b[i] as nat / 16,
    ) && hex_value(h[2 * i + 1]) == Some(b[i] as nat % 16) by {
        if i < 4 {
            assert(h[2 * i] == h1[2 * i] && h[2 * i + 1] == h1[2 * i + 1]);
        } else if i < 6 {
            assert(h[2 * i] == h2[2 * (i - 4)] && h[2 * i + 1] == h2[2 * (i - 4) + 1]);
        } else if i < 8 {
            assert(h[2 * i] == h3[2 * (i - 6)] && h[2 * i + 1] == h3[2 * (i - 6) + 1]);
        } else if i < 10 {
            assert(h[2 * i] == h4[2 * (i - 8)] && h[2 * i + 1] == h4[2 * (i - 8) + 1]);
        } else {
            assert(h[2 * i] == h5[2 * (i - 10)] && h[2 * i + 1] == h5[2 * (i - 10) + 1]);
        }
    }
    assert forall|i: int| 0 <= i < 32 implies hex_value(#[trigger] h[i]) is Some by {
        let k = i / 2;
        assert(hex_value(h[2 * k]) is Some && hex_value(h[2 * k + 1]) is Some);
        assert(i == 2 * k || i == 2 * k + 1);
    }
    let got = Seq::new(16, |i: int| hex_pair(h[2 * i], h[2 * i + 1]));
    assert forall|i: int| 0 <= i < 16 implies #[trigger] got[i] == b[i] by {
        assert(hex_value(h[2 * i]) is Some);
    }
    assert(got =~= b);
}

} // verus!
