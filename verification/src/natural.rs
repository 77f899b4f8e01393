//! Natural numbers of any size: as much of them as decimal text needs.

use vstd::prelude::*;
use vstd::slice::slice_to_vec;

verus! {

/// What the limbs spell, least significant first.
pub open spec fn limbs_value(s: Seq<u32>) -> nat
    decreases s.len(),
{
    if s.len() == 0 {
        0
    } else {
        s[0] as nat + 0x1_0000_0000 * limbs_value(s.drop_first())
    }
}

/// A natural number.
pub struct Natural {
    limbs: Vec<u32>,
}

impl View for Natural {
    type V = nat;

    closed spec fn view(&self) -> nat {
        limbs_value(self.limbs@)
    }
}

proof fn lemma_one(x: u32)
    ensures
        limbs_value(seq![x]) == x,
        limbs_value(Seq::empty()) == 0,
{
    assert(seq![x].drop_first() =~= Seq::empty());
    reveal_with_fuel(limbs_value, 2);
}

proof fn lemma_push(s: Seq<u32>, x: u32)
    ensures
        limbs_value(s.push(x)) == limbs_value(s) + limbs_weight(s.len()) * x,
    decreases s.len(),
{
    if s.len() == 0 {
        assert(s.push(x).drop_first() =~= Seq::empty());
        lemma_one(x);
        assert(s.push(x) =~= seq![x]);
        assert(limbs_weight(0) * x == x) by (nonlinear_arith)
            requires
                limbs_weight(0) == 1,
        ;
    } else {
        let t = s.drop_first();
        lemma_push(t, x);
        assert(s.push(x).drop_first() =~= t.push(x));
        let w = limbs_weight(t.len());
        assert(0x1_0000_0000 * (w * x) == (0x1_0000_0000 * w) * x) by (nonlinear_arith);
    }
}

/// What the `n`th limb counts.
spec fn limbs_weight(n: nat) -> nat
    decreases n,
{
    if n == 0 {
        1
    } else {
        0x1_0000_0000 * limbs_weight((n - 1) as nat)
    }
}

/// Where the high limbs of two numbers decide, the low ones do not matter.
proof fn lemma_high_decides(a: Seq<u32>, b: Seq<u32>, i: int)
    requires
        a.len() == b.len(),
        0 <= i <= a.len(),
        limbs_value(a.skip(i)) < limbs_value(b.skip(i)),
    ensures
        limbs_value(a) < limbs_value(b),
    decreases i,
{
    if i == 0 {
        assert(a.skip(0) =~= a);
        assert(b.skip(0) =~= b);
    } else {
        assert(a.skip(i - 1).drop_first() =~= a.skip(i));
        assert(b.skip(i - 1).drop_first() =~= b.skip(i));
        lemma_high_decides(a, b, i - 1);
    }
}

impl Natural {
    /// A number that fits in 64 bits.
    pub fn of(n: u64) -> (r: Natural)
        ensures
            r@ == n,
    {
        let lo: u32 = (n % 0x1_0000_0000) as u32;
        let hi: u32 = (n / 0x1_0000_0000) as u32;
        let mut limbs: Vec<u32> = Vec::new();
        limbs.push(lo);
        limbs.push(hi);
        proof {
            assert(limbs@.drop_first() =~= seq![hi]);
            lemma_one(hi);
        }
        Natural { limbs }
    }

    /// The same number.
    pub fn copy(&self) -> (r: Natural)
        ensures
            r@ == self@,
    {
        Natural { limbs: slice_to_vec(self.limbs.as_slice()) }
    }

    /// Multiplies by `m` and adds `c`.
    pub fn scale(&mut self, m: u64, c: u64)
        ensures
            final(self)@ == old(self)@ * m + c,
    {
        let ghost s = self.limbs@;
        let mut out: Vec<u32> = Vec::new();
        let mut carry: u128 = c as u128;
        let mut i: usize = 0;
        proof {
            assert(s.take(0) =~= Seq::empty());
            lemma_one(0);
            assert(limbs_weight(0) * carry == carry) by (nonlinear_arith)
                requires
                    limbs_weight(0) == 1,
            ;
            assert(limbs_value(s.take(0)) * m == 0) by (nonlinear_arith)
                requires
                    limbs_value(s.take(0)) == 0,
            ;
        }
        while i < self.limbs.len()
            invariant
                i <= self.limbs@.len(),
                s == self.limbs@,
                carry <= 0x1_0000_0000_0000_0000,
                out@.len() == i,
                limbs_value(out@) + limbs_weight(i as nat) * carry == limbs_value(s.take(i as int))
                    * m + c,
            decreases self.limbs@.len() - i,
        {
            let x: u32 = self.limbs[i];
            assert(x as nat * m as nat <= 0xffff_ffff * 0xffff_ffff_ffff_ffff) by (nonlinear_arith)
                requires
                    x <= 0xffff_ffff,
                    m <= 0xffff_ffff_ffff_ffff,
            ;
            let t: u128 = (x as u128) * (m as u128) + carry;
            let lo: u32 = (t % 0x1_0000_0000) as u32;
            let hi: u128 = t / 0x1_0000_0000;
            proof {
                let w = limbs_weight(i as nat);
                let before = limbs_value(s.take(i as int));
                lemma_push(out@, lo);
                lemma_push(s.take(i as int), x);
                assert(s.take(i + 1) =~= s.take(i as int).push(x));
                assert(limbs_weight((i + 1) as nat) == 0x1_0000_0000 * w);
                assert(w * lo + (0x1_0000_0000 * w) * hi == w * (x * m) + w * carry)
                    by (nonlinear_arith)
                    requires
                        x * m + carry == lo + 0x1_0000_0000 * hi,
                ;
                assert((before + w * x) * m == before * m + w * (x * m)) by (nonlinear_arith);
            }
            out.push(lo);
            carry = hi;
            i = i + 1;
        }
        assert(s.take(i as int) =~= s);
        let lo: u32 = (carry % 0x1_0000_0000) as u32;
        let mid: u32 = ((carry / 0x1_0000_0000) % 0x1_0000_0000) as u32;
        let hi: u32 = (carry / 0x1_0000_0000_0000_0000) as u32;
        proof {
            let w = limbs_weight(i as nat);
            lemma_push(out@, lo);
            lemma_push(out@.push(lo), mid);
            lemma_push(out@.push(lo).push(mid), hi);
            assert(limbs_weight((i + 1) as nat) == 0x1_0000_0000 * w);
            assert(limbs_weight((i + 2) as nat) == 0x1_0000_0000 * (0x1_0000_0000 * w));
            assert(w * lo + (0x1_0000_0000 * w) * mid + (0x1_0000_0000 * (0x1_0000_0000 * w)) * hi
                == w * carry) by (nonlinear_arith)
                requires
                    carry == lo + 0x1_0000_0000 * mid + 0x1_0000_0000_0000_0000 * hi,
            ;
        }
        out.push(lo);
        out.push(mid);
        out.push(hi);
        self.limbs = out;
    }

    /// Whether this number is below another.
    pub fn below(&self, other: &Natural) -> (r: bool)
        ensures
            r == (self@ < other@),
    {
        let a = self.widened(other.limbs.len());
        let b = other.widened(a.len());
        let mut i: usize = a.len();
        assert(a@.skip(i as int) =~= b@.skip(i as int));
        while i > 0
            invariant
                i <= a@.len(),
                a@.len() == b@.len(),
                limbs_value(a@) == self@,
                limbs_value(b@) == other@,
                limbs_value(a@.skip(i as int)) == limbs_value(b@.skip(i as int)),
            decreases i,
        {
            i = i - 1;
            proof {
                assert(a@.skip(i as int).drop_first() =~= a@.skip(i + 1));
                assert(b@.skip(i as int).drop_first() =~= b@.skip(i + 1));
            }
            if a[i] < b[i] {
                proof {
                    lemma_high_decides(a@, b@, i as int);
                }
                return true;
            }
            if a[i] > b[i] {
                proof {
                    lemma_high_decides(b@, a@, i as int);
                }
                return false;
            }
        }
        assert(a@.skip(0) =~= a@);
        assert(b@.skip(0) =~= b@);
        false
    }

    /// The limbs, with zeros above them up to `n` of them.
    fn widened(&self, n: usize) -> (r: Vec<u32>)
        ensures
            limbs_value(r@) == self@,
            r@.len() >= n,
            r@.len() >= self.limbs@.len(),
            r@.len() == n || r@.len() == self.limbs@.len(),
    {
        let mut r: Vec<u32> = slice_to_vec(self.limbs.as_slice());
        while r.len() < n
            invariant
                limbs_value(r@) == self@,
                r@.len() >= self.limbs@.len(),
                r@.len() <= n || r@.len() == self.limbs@.len(),
            decreases n - r@.len(),
        {
            proof {
                lemma_push(r@, 0);
                let w = limbs_weight(r@.len());
                assert(w * 0 == 0) by (nonlinear_arith);
            }
            r.push(0);
        }
        r
    }
}

} // verus!
