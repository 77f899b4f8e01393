//! Little-endian numbers in byte sequences.

use vstd::prelude::*;

verus! {

/// 256 to the power `n`.
pub open spec fn pow256(n: nat) -> nat
    decreases n,
{
    if n == 0 {
        1
    } else {
        256 * pow256((n - 1) as nat)
    }
}

/// The `n` low-order bytes of `v`, least significant first.
pub open spec fn le(v: nat, n: nat) -> Seq<u8>
    decreases n,
{
    if n == 0 {
        Seq::empty()
    } else {
        seq![(v % 256) as u8] + le(v / 256, (n - 1) as nat)
    }
}

/// The number that `s` spells, least significant byte first.
pub open spec fn le_value(s: Seq<u8>) -> nat
    decreases s.len(),
{
    if s.len() == 0 {
        0
    } else {
        s[0] as nat + 256 * le_value(s.drop_first())
    }
}

/// The number in the `n` bytes of `b` that start at `at`.
pub open spec fn le_at(b: Seq<u8>, at: int, n: int) -> nat {
    le_value(b.subrange(at, at + n))
}

pub proof fn lemma_pow256()
    ensures
        pow256(4) == 0x1_0000_0000,
        pow256(8) == 0x1_0000_0000_0000_0000,
{
    reveal_with_fuel(pow256, 9);
}

pub proof fn lemma_le_len(v: nat, n: nat)
    ensures
        le(v, n).len() == n,
    decreases n,
{
    if n > 0 {
        lemma_le_len(v / 256, (n - 1) as nat);
    }
}

/// Writing a number and reading it back gives the number.
pub proof fn lemma_le_round_trip(v: nat, n: nat)
    requires
        v < pow256(n),
    ensures
        le(v, n).len() == n,
        le_value(le(v, n)) == v,
    decreases n,
{
    if n > 0 {
        let rest = le(v / 256, (n - 1) as nat);
        lemma_le_round_trip(v / 256, (n - 1) as nat);
        assert(le(v, n).drop_first() =~= rest);
    }
}

/// What stands in the middle of a concatenation is what was put there.
pub proof fn lemma_le_in_middle(before: Seq<u8>, v: nat, n: nat, after: Seq<u8>)
    requires
        v < pow256(n),
    ensures
        le(v, n).len() == n,
        le_at(before + le(v, n) + after, before.len() as int, n as int) == v,
{
    lemma_le_round_trip(v, n);
    let whole = before + le(v, n) + after;
    assert(whole.subrange(before.len() as int, (before.len() + n) as int) =~= le(v, n));
}

/// Appends the `n` low-order bytes of `v`.
fn put_le(out: &mut Vec<u8>, v: u64, n: usize)
    ensures
        final(out)@ == old(out)@ + le(v as nat, n as nat),
{
    let mut left: usize = n;
    let mut rest: u64 = v;
    proof {
        assert(out@ + le(v as nat, n as nat) =~= old(out)@ + le(v as nat, n as nat));
    }
    while left > 0
        invariant
            out@ + le(rest as nat, left as nat) == old(out)@ + le(v as nat, n as nat),
        decreases left,
    {
        let ghost before = out@;
        out.push((rest % 256) as u8);
        proof {
            assert(before + le(rest as nat, left as nat) =~= out@ + le(
                rest as nat / 256,
                (left - 1) as nat,
            ));
        }
        rest = rest / 256;
        left = left - 1;
    }
    proof {
        assert(out@ + le(rest as nat, 0) =~= out@);
    }
}

/// Appends `v` as four bytes, least significant first.
pub fn put_u32(out: &mut Vec<u8>, v: u32)
    ensures
        final(out)@ == old(out)@ + le(v as nat, 4),
{
    put_le(out, v as u64, 4);
}

/// Appends `v` as eight bytes, least significant first.
pub fn put_u64(out: &mut Vec<u8>, v: u64)
    ensures
        final(out)@ == old(out)@ + le(v as nat, 8),
{
    put_le(out, v, 8);
}

/// The four-byte number at `at`.
pub fn get_u32(b: &[u8], at: usize) -> (v: u32)
    requires
        at + 4 <= b@.len(),
    ensures
        v == le_at(b@, at as int, 4),
{
    proof {
        let s = b@.subrange(at as int, at + 4);
        reveal_with_fuel(le_value, 5);
        let t1 = s.drop_first();
        let t2 = t1.drop_first();
        let t3 = t2.drop_first();
        assert(t3.drop_first().len() == 0);
        assert(t1[0] == s[1] && t2[0] == s[2] && t3[0] == s[3]);
    }
    let size: usize = b.len();
    assert(at + 4 <= size);
    let hi: u32 = b[at + 2] as u32 + 256 * (b[at + 3] as u32);
    b[at] as u32 + 256 * (b[at + 1] as u32 + 256 * hi)
}

/// The eight-byte number at `at`.
pub fn get_u64(b: &[u8], at: usize) -> (v: u64)
    requires
        at + 8 <= b@.len(),
    ensures
        v == le_at(b@, at as int, 8),
{
    let size: usize = b.len();
    assert(at + 8 <= size);
    let lo: u64 = get_u32(b, at) as u64;
    let hi: u64 = get_u32(b, at + 4) as u64;
    proof {
        lemma_le_split(b@.subrange(at as int, at + 8), 4);
        assert(b@.subrange(at as int, at + 8).subrange(0, 4) =~= b@.subrange(at as int, at + 4));
        assert(b@.subrange(at as int, at + 8).subrange(4, 8) =~= b@.subrange(at + 4, at + 8));
        lemma_pow256();
    }
    lo + 0x1_0000_0000 * hi
}

/// A number is its low part plus its high part, shifted.
proof fn lemma_le_split(s: Seq<u8>, k: int)
    requires
        0 <= k <= s.len(),
    ensures
        le_value(s) == le_value(s.subrange(0, k)) + pow256(k as nat) * le_value(
            s.subrange(k, s.len() as int),
        ),
    decreases k,
{
    if k == 0 {
        assert(s.subrange(0, s.len() as int) =~= s);
        assert(le_value(s.subrange(0, 0)) == 0);
        assert(pow256(0) * le_value(s) == le_value(s)) by (nonlinear_arith)
            requires
                pow256(0) == 1,
        ;
    } else {
        let t = s.drop_first();
        lemma_le_split(t, k - 1);
        assert(s.subrange(0, k).drop_first() =~= t.subrange(0, k - 1));
        assert(s.subrange(k, s.len() as int) =~= t.subrange(k - 1, t.len() as int));
        let hi = le_value(s.subrange(k, s.len() as int));
        let p = pow256((k - 1) as nat);
        assert(256 * (p * hi) == (256 * p) * hi) by (nonlinear_arith);
        assert(pow256(k as nat) == 256 * p);
        assert(le_value(s) == s[0] + 256 * le_value(t));
        assert(le_value(s.subrange(0, k)) == s[0] + 256 * le_value(t.subrange(0, k - 1)));
    }
}

} // verus!
