//! Decimal text as a measure: a number, fraction and exponent allowed, times
//! a whole unit.
//!
//! A number is held in binary64 on the way, as every reader of these texts
//! holds it: the text is rounded to the nearest such number (a tie to the
//! even one), the product with the unit is rounded the same way, and what is
//! left after the point is dropped. All of it is computed here in whole
//! numbers.

use crate::natural::Natural;
use crate::text::{
    all_digits, decimal, digits_value, find, find_char, is_digit, lemma_decimal, lemma_find_is, spells,
};
use vstd::arithmetic::div_mod::{lemma_div_denominator, lemma_fundamental_div_mod_converse};
use vstd::prelude::*;
use vstd::slice::{slice_subrange, slice_to_vec};

verus! {

pub open spec fn pow2(n: nat) -> nat
    decreases n,
{
    if n == 0 {
        1
    } else {
        2 * pow2((n - 1) as nat)
    }
}

pub open spec fn pow10(n: nat) -> nat
    decreases n,
{
    if n == 0 {
        1
    } else {
        10 * pow10((n - 1) as nat)
    }
}

/// `p`, doubled once for each step that `k` is below zero.
pub open spec fn up(p: nat, k: int) -> nat {
    if k < 0 {
        p * pow2((-k) as nat)
    } else {
        p
    }
}

/// `q`, doubled once for each step that `k` is above zero.
pub open spec fn down(q: nat, k: int) -> nat {
    if k > 0 {
        q * pow2(k as nat)
    } else {
        q
    }
}

/// Whether `p / q`, counted in units of two to the `k`, is below two to the
/// 53: what a binary64 number has room for.
pub open spec fn fits(p: nat, q: nat, k: int) -> bool {
    up(p, k) < pow2(53) * down(q, k)
}

/// Whether `k` is the finest unit that `p / q` can be counted in.
pub open spec fn is_exponent(p: nat, q: nat, k: int) -> bool {
    k >= -1074 && fits(p, q, k) && (k == -1074 || !fits(p, q, k - 1))
}

/// The whole number nearest to `p / q`; of two as near, the even one.
pub open spec fn half_even(p: nat, q: nat) -> nat {
    let f = p / q;
    let r = p % q;
    if 2 * r > q || (2 * r == q && f % 2 == 1) {
        f + 1
    } else {
        f
    }
}

/// The finest unit that `p / q` can be counted in, as a power of two.
pub open spec fn exponent(p: nat, q: nat) -> int {
    choose|k: int| #[trigger] is_exponent(p, q, k)
}

/// The binary64 number nearest to `p / q`: how many of which power of two.
pub open spec fn nearest(p: nat, q: nat) -> (nat, int) {
    let k = exponent(p, q);
    (half_even(up(p, k), down(q, k)), k)
}

/// `m` of two to the `k`, without what is behind the point.
pub open spec fn whole_part(m: nat, k: int) -> nat {
    if k >= 0 {
        m * pow2(k as nat)
    } else {
        m / pow2((-k) as nat)
    }
}

/// Whether `m` of two to the `k` is beyond every binary64 number.
pub open spec fn is_infinite(m: nat, k: int) -> bool {
    k >= 0 && m * pow2(k as nat) >= pow2(1024)
}

pub proof fn lemma_pow2_pos(n: nat)
    ensures
        pow2(n) > 0,
    decreases n,
{
    if n > 0 {
        lemma_pow2_pos((n - 1) as nat);
    }
}

pub proof fn lemma_pow2_add(a: nat, b: nat)
    ensures
        pow2(a + b) == pow2(a) * pow2(b),
    decreases a,
{
    if a == 0 {
        assert(pow2(0) * pow2(b) == pow2(b)) by (nonlinear_arith)
            requires
                pow2(0) == 1,
        ;
    } else {
        lemma_pow2_add((a - 1) as nat, b);
        let x = pow2((a - 1) as nat);
        let y = pow2(b);
        assert((2 * x) * y == 2 * (x * y)) by (nonlinear_arith);
    }
}

pub proof fn lemma_pow2_mono(a: nat, b: nat)
    requires
        a <= b,
    ensures
        pow2(a) <= pow2(b),
    decreases b - a,
{
    if a < b {
        lemma_pow2_mono(a, (b - 1) as nat);
    }
}

pub proof fn lemma_pow2_53()
    ensures
        pow2(53) == 0x20_0000_0000_0000,
{
    reveal_with_fuel(pow2, 54);
}

/// A coarser unit has room too.
proof fn lemma_fits_coarser(p: nat, q: nat, k: int)
    requires
        fits(p, q, k),
    ensures
        fits(p, q, k + 1),
{
    lemma_pow2_53();
    if k < 0 {
        let a = pow2((-k) as nat);
        let b = pow2((-k - 1) as nat);
        assert(a == 2 * b);
        assert(p * a == 2 * (p * b)) by (nonlinear_arith)
            requires
                a == 2 * b,
        ;
        if k == -1 {
            assert(p * b == p) by (nonlinear_arith)
                requires
                    b == 1,
            ;
        }
    } else {
        let a = pow2(k as nat);
        let b = pow2((k + 1) as nat);
        assert(b == 2 * a);
        assert(q * b == 2 * (q * a)) by (nonlinear_arith)
            requires
                b == 2 * a,
        ;
        if k == 0 {
            assert(q * a == q) by (nonlinear_arith)
                requires
                    a == 1,
            ;
        }
    }
}

proof fn lemma_fits_above(p: nat, q: nat, k: int, j: int)
    requires
        fits(p, q, k),
        k <= j,
    ensures
        fits(p, q, j),
    decreases j - k,
{
    if k < j {
        lemma_fits_above(p, q, k, j - 1);
        lemma_fits_coarser(p, q, j - 1);
    }
}

/// There is one finest unit.
pub proof fn lemma_exponent_is(p: nat, q: nat, k: int)
    requires
        is_exponent(p, q, k),
    ensures
        exponent(p, q) == k,
{
    let j = exponent(p, q);
    assert(is_exponent(p, q, j));
    if j < k {
        lemma_fits_above(p, q, j, k - 1);
    } else if k < j {
        lemma_fits_above(p, q, k, j - 1);
    }
}

/// Rounds `p / q` to the nearest binary64 number.
fn round(p: Natural, q: &Natural) -> (r: (u64, i64))
    requires
        q@ > 0,
        p@ < q@ * pow2(5000),
    ensures
        (r.0 as nat, r.1 as int) == nearest(p@, q@),
        r.0 <= 0x20_0000_0000_0000,
        -1074 <= r.1 <= 5000,
{
    let ghost p0 = p@;
    let ghost q0 = q@;
    let mut num = p;
    let mut den = q.copy();
    let mut top = q.copy();
    top.scale(0x20_0000_0000_0000, 0);
    let mut k: i64 = 0;
    proof {
        lemma_pow2_53();
    }
    // Coarser, until there is room.
    while !num.below(&top)
        invariant
            q0 > 0,
            p0 < q0 * pow2(5000),
            num@ == p0,
            0 <= k <= 5000,
            den@ == down(q0, k as int),
            top@ == pow2(53) * down(q0, k as int),
            pow2(53) == 0x20_0000_0000_0000,
            k > 0 ==> !fits(p0, q0, k - 1),
        ensures
            fits(p0, q0, k as int),
        decreases 5001 - k,
    {
        proof {
            let a = pow2(k as nat);
            assert(pow2((k + 1) as nat) == 2 * a);
            assert(q0 * (2 * a) == (q0 * a) * 2) by (nonlinear_arith);
            if k == 0 {
                assert(q0 * a == q0) by (nonlinear_arith)
                    requires
                        a == 1,
                ;
            }
            assert(down(q0, k + 1) == 2 * down(q0, k as int));
            if k == 5000 {
                assert(down(q0, 5000) == q0 * pow2(5000));
            }
        }
        den.scale(2, 0);
        top.scale(2, 0);
        k = k + 1;
    }
    // Finer, while there is room.
    if k == 0 {
        let mut twice = num.copy();
        twice.scale(2, 0);
        assert(p0 * pow2(0) == p0) by (nonlinear_arith)
            requires
                pow2(0) == 1,
        ;
        while k > -1074 && twice.below(&top)
            invariant
                q0 > 0,
                -1074 <= k <= 0,
                num@ == up(p0, k as int),
                twice@ == 2 * num@,
                den@ == q0,
                top@ == pow2(53) * q0,
                fits(p0, q0, k as int),
            decreases k + 1074,
        {
            proof {
                let a = pow2((-k) as nat);
                assert(pow2((-k + 1) as nat) == 2 * a);
                assert(p0 * (2 * a) == 2 * (p0 * a)) by (nonlinear_arith);
                if k == 0 {
                    assert(p0 * a == p0) by (nonlinear_arith)
                        requires
                            a == 1,
                    ;
                }
            }
            num.scale(2, 0);
            twice.scale(2, 0);
            k = k - 1;
        }
        proof {
            if k > -1074 {
                let a = pow2((-k) as nat);
                assert(pow2((-k + 1) as nat) == 2 * a);
                assert(p0 * (2 * a) == 2 * (p0 * a)) by (nonlinear_arith);
                if k == 0 {
                    assert(p0 * a == p0) by (nonlinear_arith)
                        requires
                            a == 1,
                    ;
                }
                assert(up(p0, k - 1) == 2 * up(p0, k as int));
            }
        }
    }
    proof {
        assert(is_exponent(p0, q0, k as int));
        lemma_exponent_is(p0, q0, k as int);
        assert(num@ == up(p0, k as int) && den@ == down(q0, k as int));
        if k > 0 {
            lemma_pow2_pos(k as nat);
            assert(den@ > 0) by (nonlinear_arith)
                requires
                    den@ == q0 * pow2(k as nat),
                    q0 > 0,
                    pow2(k as nat) > 0,
            ;
        }
    }
    let m: u64 = divide(&num, &den);
    (m, k)
}

/// The whole number nearest to `num / den`, which is below two to the 53.
fn divide(num: &Natural, den: &Natural) -> (m: u64)
    requires
        den@ > 0,
        num@ < 0x20_0000_0000_0000 * den@,
    ensures
        m == half_even(num@, den@),
        m <= 0x20_0000_0000_0000,
{
    let mut lo: u64 = 0;
    let mut hi: u64 = 0x20_0000_0000_0000;
    while hi - lo > 1
        invariant
            lo < hi <= 0x20_0000_0000_0000,
            lo * den@ <= num@ < hi * den@,
        decreases hi - lo,
    {
        let mid: u64 = lo + (hi - lo) / 2;
        let mut x = den.copy();
        x.scale(mid, 0);
        assert(x@ == mid * den@) by (nonlinear_arith)
            requires
                x@ == den@ * mid + 0,
        ;
        if num.below(&x) {
            hi = mid;
        } else {
            lo = mid;
        }
    }
    let ghost r = num@ - lo * den@;
    proof {
        assert(hi == lo + 1);
        assert((lo + 1) * den@ == lo * den@ + den@) by (nonlinear_arith);
        lemma_fundamental_div_mod_converse(num@ as int, den@ as int, lo as int, r);
    }
    let mut twice = num.copy();
    twice.scale(2, 0);
    let mut middle = den.copy();
    middle.scale(2 * lo + 1, 0);
    proof {
        assert(middle@ == 2 * (lo * den@) + den@) by (nonlinear_arith)
            requires
                middle@ == den@ * (2 * lo + 1) + 0,
        ;
    }
    if middle.below(&twice) {
        lo + 1
    } else if twice.below(&middle) {
        lo
    } else if lo % 2 == 1 {
        lo + 1
    } else {
        lo
    }
}

// ----------------------------------------------------------------- literals

/// An ASCII letter in lower case; any other character as it is.
pub open spec fn lower_char(c: char) -> char {
    if 'A' <= c && c <= 'Z' {
        (c as u32 + 32) as char
    } else {
        c
    }
}

/// A text with its ASCII letters in lower case.
pub open spec fn lower(s: Seq<char>) -> Seq<char> {
    Seq::new(s.len(), |i: int| lower_char(s[i]))
}

/// What a text spells as a number: an infinity or no number at all, or digits
/// counted in a power of ten, with a sign.
pub enum Literal {
    NotFinite,
    Number { negative: bool, digits: Seq<char>, exponent: int },
}

/// A text without the sign at its start.
pub open spec fn unsigned(s: Seq<char>) -> Seq<char> {
    if s.len() > 0 && (s[0] == '+' || s[0] == '-') {
        s.drop_first()
    } else {
        s
    }
}

/// The exponent that a text spells: a sign or none, then digits.
pub open spec fn exponent_of(s: Seq<char>) -> Option<int> {
    let d = unsigned(s);
    if d.len() == 0 || !all_digits(d) {
        None
    } else if s[0] == '-' {
        Some(-(digits_value(d) as int))
    } else {
        Some(digits_value(d) as int)
    }
}

/// The whole digits of a mantissa: what stands before the point.
pub open spec fn whole_digits(m: Seq<char>) -> Seq<char> {
    m.take(find(m, '.'))
}

/// The fraction digits of a mantissa: what stands behind the point.
pub open spec fn fraction_digits(m: Seq<char>) -> Seq<char> {
    if find(m, '.') < m.len() {
        m.skip(find(m, '.') + 1)
    } else {
        Seq::empty()
    }
}

/// What a text spells as a number: `inf`, `infinity` or `nan` in any case, or
/// digits with a point among them or none, and an exponent or none.
pub open spec fn literal(s: Seq<char>) -> Option<Literal> {
    let t = lower(unsigned(s));
    let e = find(t, 'e');
    let m = t.take(e);
    let digits = whole_digits(m) + fraction_digits(m);
    let x = if e < t.len() {
        exponent_of(t.skip(e + 1))
    } else {
        Some(0)
    };
    if t == "inf"@ || t == "infinity"@ || t == "nan"@ {
        Some(Literal::NotFinite)
    } else if digits.len() == 0 || !all_digits(digits) || x is None {
        None
    } else {
        Some(
            Literal::Number {
                negative: s[0] == '-',
                digits,
                exponent: x->Some_0 - fraction_digits(m).len(),
            },
        )
    }
}

/// What a text times a unit comes to.
#[derive(Debug, Clone, Copy, PartialEq, Eq, Structural)]
pub enum Amount {
    /// The text is not a number.
    Unrecognized,
    /// The number is negative, infinite or not a number.
    OutOfRange,
    Value(u64),
}

pub open spec fn numerator(digits: Seq<char>, exponent: int) -> nat {
    if exponent > 0 {
        digits_value(digits) * pow10(exponent as nat)
    } else {
        digits_value(digits)
    }
}

pub open spec fn denominator(exponent: int) -> nat {
    if exponent < 0 {
        pow10((-exponent) as nat)
    } else {
        1
    }
}

/// `m` of two to the `k`, times a unit, as a whole number: at most the
/// largest that 64 bits hold.
pub open spec fn product(m: nat, k: int, unit: nat) -> u64 {
    let (m2, k2) = nearest(down(m * unit, k), up(1, k));
    let n = whole_part(m2, k2);
    if n > u64::MAX {
        u64::MAX
    } else {
        n as u64
    }
}

/// What a text times a unit comes to.
pub open spec fn amount(s: Seq<char>, unit: nat) -> Amount {
    match literal(s) {
        None => Amount::Unrecognized,
        Some(Literal::NotFinite) => Amount::OutOfRange,
        Some(Literal::Number { negative, digits, exponent }) => {
            let (m, k) = nearest(numerator(digits, exponent), denominator(exponent));
            if is_infinite(m, k) || (negative && m > 0) {
                Amount::OutOfRange
            } else {
                Amount::Value(product(m, k, unit))
            }
        },
    }
}

proof fn lemma_pow10_pos(n: nat)
    ensures
        pow10(n) > 0,
    decreases n,
{
    if n > 0 {
        lemma_pow10_pos((n - 1) as nat);
    }
}

proof fn lemma_pow10_add(a: nat, b: nat)
    ensures
        pow10(a + b) == pow10(a) * pow10(b),
    decreases a,
{
    if a == 0 {
        assert(pow10(0) * pow10(b) == pow10(b)) by (nonlinear_arith)
            requires
                pow10(0) == 1,
        ;
    } else {
        lemma_pow10_add((a - 1) as nat, b);
        let x = pow10((a - 1) as nat);
        let y = pow10(b);
        assert((10 * x) * y == 10 * (x * y)) by (nonlinear_arith);
    }
}

/// Ten lies between two and two to the fourth.
proof fn lemma_pow10_pow2(n: nat)
    ensures
        pow2(n) <= pow10(n) <= pow2(4 * n),
    decreases n,
{
    if n > 0 {
        lemma_pow10_pow2((n - 1) as nat);
        let m = (4 * (n - 1)) as nat;
        assert(pow2(m + 4) == 2 * pow2(m + 3));
        assert(pow2(m + 3) == 2 * pow2(m + 2));
        assert(pow2(m + 2) == 2 * pow2(m + 1));
        assert(pow2(m + 1) == 2 * pow2(m));
        assert(4 * n == m + 4);
    }
}

/// There is a finest unit to count in.
proof fn lemma_exponent_exists(p: nat, q: nat, k: int)
    requires
        fits(p, q, k),
        k >= -1074,
    ensures
        is_exponent(p, q, exponent(p, q)),
    decreases k + 1074,
{
    if k == -1074 || !fits(p, q, k - 1) {
        assert(is_exponent(p, q, k));
    } else {
        lemma_exponent_exists(p, q, k - 1);
    }
}

proof fn lemma_below_pow2(n: nat)
    ensures
        n < pow2(n),
    decreases n,
{
    if n > 0 {
        lemma_below_pow2((n - 1) as nat);
    }
}

proof fn lemma_has_exponent(p: nat, q: nat)
    requires
        q > 0,
    ensures
        is_exponent(p, q, exponent(p, q)),
{
    let k = p + 1;
    lemma_below_pow2(k);
    lemma_pow2_53();
    assert(p < 0x20_0000_0000_0000 * (q * pow2(k))) by (nonlinear_arith)
        requires
            q > 0,
            p + 1 < pow2(k),
    ;
    assert(fits(p, q, k as int));
    lemma_exponent_exists(p, q, k as int);
}

/// What is beyond two to the 1100 is beyond every binary64 number.
proof fn lemma_huge_is_infinite(p: nat, q: nat)
    requires
        q > 0,
        p >= q * pow2(1100),
    ensures
        is_infinite(nearest(p, q).0, nearest(p, q).1),
{
    lemma_has_exponent(p, q);
    lemma_pow2_53();
    let k = exponent(p, q);
    if k < 1047 {
        lemma_fits_above(p, q, k, 1047);
        lemma_pow2_add(53, 1047);
        assert(0x20_0000_0000_0000 * (q * pow2(1047)) == q * (0x20_0000_0000_0000 * pow2(1047)))
            by (nonlinear_arith);
        assert(false);
    }
    let w = pow2(k as nat);
    let h = pow2((k - 1) as nat);
    assert(w == 2 * h);
    lemma_pow2_pos(k as nat);
    let d = q * w;
    assert(d > 0) by (nonlinear_arith)
        requires
            d == q * w,
            q > 0,
            w > 0,
    ;
    assert(!fits(p, q, k - 1));
    assert(p >= 0x10_0000_0000_0000 * d) by (nonlinear_arith)
        requires
            p >= 0x20_0000_0000_0000 * (q * h),
            w == 2 * h,
            d == q * w,
    ;
    assert(p / d >= 0x10_0000_0000_0000) by (nonlinear_arith)
        requires
            p >= 0x10_0000_0000_0000 * d,
            d > 0,
    ;
    let m = half_even(p, d);
    assert(m >= 0x10_0000_0000_0000);
    lemma_pow2_mono(1024, k as nat);
    assert(m * w >= w) by (nonlinear_arith)
        requires
            m >= 1,
            w >= 0,
    ;
}

/// What is below two to the minus 1100 rounds to zero, and so does zero.
proof fn lemma_tiny_is_zero(p: nat, q: nat)
    requires
        q > 0,
        p * pow2(1100) <= q,
    ensures
        nearest(p, q) == (0nat, -1074int),
{
    lemma_pow2_add(1074, 26);
    let a = pow2(1074);
    let b = pow2(26);
    assert(b == 0x400_0000) by {
        reveal_with_fuel(pow2, 27);
    }
    lemma_pow2_53();
    lemma_pow2_pos(1074);
    assert(4 * (p * a) <= q) by (nonlinear_arith)
        requires
            p * (a * b) <= q,
            b == 0x400_0000,
            p * a >= 0,
    ;
    assert(fits(p, q, -1074));
    assert(is_exponent(p, q, -1074));
    lemma_exponent_is(p, q, -1074);
    let x = p * a;
    assert(x / q == 0 && x % q == x) by {
        lemma_fundamental_div_mod_converse(x as int, q as int, 0, x as int);
    }
}

// ---------------------------------------------------------------- computing

fn lower_of(c: char) -> (r: char)
    ensures
        r == lower_char(c),
{
    if 'A' <= c && c <= 'Z' {
        (c as u8 + 32u8) as char
    } else {
        c
    }
}

/// A text's characters with the ASCII letters in lower case.
pub fn lowered(v: &[char]) -> (r: Vec<char>)
    ensures
        r@ == lower(v@),
{
    let mut r: Vec<char> = Vec::new();
    let mut i: usize = 0;
    while i < v.len()
        invariant
            i <= v@.len(),
            r@ == lower(v@).take(i as int),
        decreases v@.len() - i,
    {
        r.push(lower_of(v[i]));
        i = i + 1;
        assert(r@ =~= lower(v@).take(i as int));
    }
    assert(r@ =~= lower(v@));
    r
}

fn without_sign(v: &[char]) -> (r: &[char])
    ensures
        r@ == unsigned(v@),
{
    if v.len() > 0 && (v[0] == '+' || v[0] == '-') {
        let r: &[char] = slice_subrange(v, 1, v.len());
        assert(r@ =~= v@.drop_first());
        r
    } else {
        v
    }
}

/// Digits as a number, and how many there are from the first that is not zero.
fn digits_number(v: &[char]) -> (r: Option<(Natural, usize)>)
    ensures
        match r {
            Some((n, count)) => {
                &&& all_digits(v@)
                &&& n@ == digits_value(v@)
                &&& n@ < pow10(count as nat)
                &&& count > 0 ==> n@ >= pow10((count - 1) as nat)
                &&& count <= v@.len()
            },
            None => !all_digits(v@),
        },
{
    let mut n = Natural::of(0);
    let mut count: usize = 0;
    let mut i: usize = 0;
    let ghost none = v@.take(0);
    assert(none =~= Seq::empty());
    while i < v.len()
        invariant
            count <= i <= v@.len(),
            forall|j: int| 0 <= j < i ==> is_digit(#[trigger] v@[j]),
            n@ == digits_value(v@.take(i as int)),
            n@ < pow10(count as nat),
            count > 0 ==> n@ >= pow10((count - 1) as nat),
        decreases v@.len() - i,
    {
        let c: char = v[i];
        if !('0' <= c && c <= '9') {
            assert(!is_digit(v@[i as int]));
            return None;
        }
        let d: u64 = c as u64 - '0' as u64;
        proof {
            assert(v@.take(i + 1).drop_last() =~= v@.take(i as int));
            assert(v@.take(i + 1).last() == c);
            assert(pow10((count + 1) as nat) == 10 * pow10(count as nat));
            if count > 0 {
                assert(pow10(count as nat) == 10 * pow10((count - 1) as nat));
            }
        }
        n.scale(10, d);
        if count > 0 || d > 0 {
            count = count + 1;
        }
        i = i + 1;
    }
    assert(v@.take(i as int) =~= v@);
    Some((n, count))
}

/// Digits as a number, up to two to the hundredth.
fn digits_capped(v: &[char]) -> (r: Option<u128>)
    ensures
        match r {
            Some(n) => {
                &&& all_digits(v@)
                &&& n <= 0x10_0000_0000_0000_0000_0000_0000
                &&& n < 0x10_0000_0000_0000_0000_0000_0000 ==> n == digits_value(v@)
                &&& n == 0x10_0000_0000_0000_0000_0000_0000 ==> digits_value(v@) >= n
            },
            None => !all_digits(v@),
        },
{
    let mut n: u128 = 0;
    let mut i: usize = 0;
    let ghost none = v@.take(0);
    assert(none =~= Seq::empty());
    while i < v.len()
        invariant
            i <= v@.len(),
            forall|j: int| 0 <= j < i ==> is_digit(#[trigger] v@[j]),
            n <= 0x10_0000_0000_0000_0000_0000_0000,
            n < 0x10_0000_0000_0000_0000_0000_0000 ==> n == digits_value(v@.take(i as int)),
            n == 0x10_0000_0000_0000_0000_0000_0000 ==> digits_value(v@.take(i as int)) >= n,
        decreases v@.len() - i,
    {
        let c: char = v[i];
        if !('0' <= c && c <= '9') {
            assert(!is_digit(v@[i as int]));
            return None;
        }
        let d: u128 = c as u128 - '0' as u128;
        proof {
            assert(v@.take(i + 1).drop_last() =~= v@.take(i as int));
            assert(v@.take(i + 1).last() == c);
        }
        let next: u128 = n * 10 + d;
        n = if next > 0x10_0000_0000_0000_0000_0000_0000 {
            0x10_0000_0000_0000_0000_0000_0000
        } else {
            next
        };
        i = i + 1;
    }
    assert(v@.take(i as int) =~= v@);
    Some(n)
}

fn times_pow10(n: &mut Natural, k: u128)
    ensures
        final(n)@ == old(n)@ * pow10(k as nat),
{
    let ghost n0 = n@;
    let mut i: u128 = 0;
    assert(n0 * pow10(0) == n0) by (nonlinear_arith)
        requires
            pow10(0) == 1,
    ;
    while i < k
        invariant
            i <= k,
            n@ == n0 * pow10(i as nat),
        decreases k - i,
    {
        n.scale(10, 0);
        proof {
            let a = pow10(i as nat);
            assert(pow10((i + 1) as nat) == 10 * a);
            assert(n0 * (10 * a) == (n0 * a) * 10) by (nonlinear_arith);
        }
        i = i + 1;
    }
}

fn times_pow2(n: &mut Natural, k: usize)
    ensures
        final(n)@ == old(n)@ * pow2(k as nat),
{
    let ghost n0 = n@;
    let mut i: usize = 0;
    assert(n0 * pow2(0) == n0) by (nonlinear_arith)
        requires
            pow2(0) == 1,
    ;
    while i < k
        invariant
            i <= k,
            n@ == n0 * pow2(i as nat),
        decreases k - i,
    {
        n.scale(2, 0);
        proof {
            let a = pow2(i as nat);
            assert(pow2((i + 1) as nat) == 2 * a);
            assert(n0 * (2 * a) == (n0 * a) * 2) by (nonlinear_arith);
        }
        i = i + 1;
    }
}

fn infinite(m: u64, k: i64) -> (r: bool)
    requires
        -1074 <= k <= 5000,
    ensures
        r == is_infinite(m as nat, k as int),
{
    if k < 0 {
        return false;
    }
    let mut a = Natural::of(m);
    times_pow2(&mut a, k as usize);
    let mut b = Natural::of(1);
    times_pow2(&mut b, 1024);
    assert(1 * pow2(1024) == pow2(1024)) by (nonlinear_arith);
    !a.below(&b)
}

fn whole(m: u64, k: i64) -> (r: u64)
    requires
        m <= 0x20_0000_0000_0000,
        -1074 <= k <= 5000,
    ensures
        r == (if whole_part(m as nat, k as int) > u64::MAX {
            u64::MAX as nat
        } else {
            whole_part(m as nat, k as int)
        }),
{
    if k >= 0 {
        let mut a = Natural::of(m);
        times_pow2(&mut a, k as usize);
        let top = Natural::of(u64::MAX);
        if top.below(&a) {
            return u64::MAX;
        }
        if m == 0 {
            assert(0 * pow2(k as nat) == 0) by (nonlinear_arith);
            return 0;
        }
        // It fits, so doubling it stays within 64 bits.
        let mut x: u64 = m;
        let mut i: i64 = 0;
        assert(m * pow2(0) == m) by (nonlinear_arith)
            requires
                pow2(0) == 1,
        ;
        while i < k
            invariant
                0 <= i <= k,
                x == m * pow2(i as nat),
                m * pow2(k as nat) <= u64::MAX,
            decreases k - i,
        {
            proof {
                let a = pow2(i as nat);
                assert(pow2((i + 1) as nat) == 2 * a);
                lemma_pow2_mono((i + 1) as nat, k as nat);
                assert(m * (2 * a) == 2 * (m * a)) by (nonlinear_arith);
                assert(m * pow2((i + 1) as nat) <= m * pow2(k as nat)) by (nonlinear_arith)
                    requires
                        pow2((i + 1) as nat) <= pow2(k as nat),
                ;
            }
            x = x * 2;
            i = i + 1;
        }
        x
    } else {
        let mut x: u64 = m;
        let mut i: i64 = 0;
        assert(m as nat / pow2(0) == m) by (nonlinear_arith)
            requires
                pow2(0) == 1,
        ;
        while i > k
            invariant
                k <= i <= 0,
                x == m as nat / pow2((-i) as nat),
            decreases i - k,
        {
            proof {
                let a = pow2((-i) as nat);
                lemma_pow2_pos((-i) as nat);
                assert(pow2((-i + 1) as nat) == 2 * a);
                lemma_div_denominator(m as int, a as int, 2);
                assert(a * 2 == 2 * a);
            }
            x = x / 2;
            i = i - 1;
        }
        x
    }
}

pub(crate) fn product_of(m: u64, k: i64, unit: u64) -> (r: u64)
    requires
        m <= 0x20_0000_0000_0000,
        -1074 <= k <= 5000,
        !is_infinite(m as nat, k as int),
    ensures
        r == product(m as nat, k as int, unit as nat),
{
    let mut p = Natural::of(m);
    p.scale(unit, 0);
    let ghost mu = m as nat * unit as nat;
    let mut q = Natural::of(1);
    proof {
        lemma_pow2_64();
        assert(mu <= 0x20_0000_0000_0000 * 0xffff_ffff_ffff_ffff) by (nonlinear_arith)
            requires
                mu == m as nat * unit as nat,
                m <= 0x20_0000_0000_0000,
                unit <= 0xffff_ffff_ffff_ffff,
        ;
    }
    if k > 0 {
        times_pow2(&mut p, k as usize);
        proof {
            let w = pow2(k as nat);
            lemma_pow2_add(1024, 64);
            lemma_pow2_mono(1088, 5000);
            assert(mu * w == (m as nat * w) * unit as nat) by (nonlinear_arith)
                requires
                    mu == m as nat * unit as nat,
            ;
            assert(mu * w < pow2(1024) * pow2(64)) by (nonlinear_arith)
                requires
                    mu == m as nat * unit as nat,
                    m as nat * w < pow2(1024),
                    unit as nat + 1 <= pow2(64),
                    mu * w == (m as nat * w) * unit as nat,
            ;
            assert(1 * pow2(5000) == pow2(5000)) by (nonlinear_arith);
        }
    } else {
        times_pow2(&mut q, (-k) as usize);
        proof {
            let w = pow2((-k) as nat);
            lemma_pow2_pos((-k) as nat);
            lemma_pow2_53();
            lemma_pow2_add(53, 64);
            lemma_pow2_mono(117, 5000);
            assert(1 * w == w) by (nonlinear_arith);
            assert(w * pow2(5000) >= pow2(5000)) by (nonlinear_arith)
                requires
                    w >= 1,
                    pow2(5000) >= 0,
            ;
        }
    }
    let (m2, k2) = round(p, &q);
    whole(m2, k2)
}

proof fn lemma_pow2_64()
    ensures
        pow2(64) == 0x1_0000_0000_0000_0000,
{
    reveal_with_fuel(pow2, 65);
}

/// The exponent that a text spells, up to two to the hundredth either way.
fn exponent_capped(v: &[char]) -> (r: Option<i128>)
    ensures
        match r {
            Some(x) => {
                let cap = 0x10_0000_0000_0000_0000_0000_0000int;
                &&& exponent_of(v@) is Some
                &&& -cap <= x <= cap
                &&& -cap < x < cap ==> x == exponent_of(v@)->Some_0
                &&& x == cap ==> exponent_of(v@)->Some_0 >= cap
                &&& x == -cap ==> exponent_of(v@)->Some_0 <= -cap
            },
            None => exponent_of(v@) is None,
        },
{
    let d: &[char] = without_sign(v);
    if d.len() == 0 {
        return None;
    }
    match digits_capped(d) {
        None => None,
        Some(n) => if v[0] == '-' {
            Some(-(n as i128))
        } else {
            Some(n as i128)
        },
    }
}

/// The fraction `d` times ten to the `x`, rounded, where the digits of `d`
/// are `count` and the exponent is not far from taking them away.
fn rounded(d: Natural, count: usize, x: i128) -> (r: (u64, i64))
    requires
        d@ > 0,
        count > 0,
        pow10((count - 1) as nat) <= d@ < pow10(count as nat),
        -1200 <= count + x <= 1200,
    ensures
        ({
            let p = if x > 0 {
                d@ * pow10(x as nat)
            } else {
                d@
            };
            let q = if x < 0 {
                pow10((-x) as nat)
            } else {
                1nat
            };
            (r.0 as nat, r.1 as int) == nearest(p, q)
        }),
        r.0 <= 0x20_0000_0000_0000,
        -1074 <= r.1 <= 5000,
{
    let ghost d0 = d@;
    let ghost bound = pow10(1200);
    let mut p = d;
    let mut q = Natural::of(1);
    proof {
        lemma_pow10_pow2(1200);
        lemma_pow2_mono(4800, 5000);
    }
    if x > 0 {
        times_pow10(&mut p, x as u128);
        proof {
            let a = pow10(count as nat);
            let b = pow10(x as nat);
            lemma_pow10_pos(x as nat);
            lemma_pow10_add(count as nat, x as nat);
            lemma_pow10_mono((count + x) as nat, 1200);
            assert(d0 * b < a * b) by (nonlinear_arith)
                requires
                    d0 < a,
                    b > 0,
            ;
            assert(1 * pow2(5000) == pow2(5000)) by (nonlinear_arith);
        }
    } else {
        times_pow10(&mut q, (-x) as u128);
        proof {
            let a = pow10(count as nat);
            let b = pow10((-x) as nat);
            assert(1 * b == b) by (nonlinear_arith);
            lemma_pow10_pos((-x) as nat);
            if count + x <= 0 {
                lemma_pow10_mono(count as nat, (-x) as nat);
                lemma_pow2_pos(5000);
                assert(b <= b * pow2(5000)) by (nonlinear_arith)
                    requires
                        b > 0,
                        pow2(5000) >= 1,
                ;
            } else {
                lemma_pow10_add((-x) as nat, (count + x) as nat);
                lemma_pow10_mono((count + x) as nat, 1200);
                assert(b * pow10((count + x) as nat) <= b * pow2(5000)) by (nonlinear_arith)
                    requires
                        pow10((count + x) as nat) <= pow2(5000),
                ;
            }
        }
    }
    round(p, &q)
}

proof fn lemma_pow10_mono(a: nat, b: nat)
    requires
        a <= b,
    ensures
        pow10(a) <= pow10(b),
    decreases b - a,
{
    if a < b {
        lemma_pow10_mono(a, (b - 1) as nat);
    }
}

proof fn lemma_far_above(d: nat, count: nat, x: int)
    requires
        count > 0,
        pow10((count - 1) as nat) <= d,
        count + x > 1200,
    ensures
        ({
            let p = if x > 0 {
                d * pow10(x as nat)
            } else {
                d
            };
            let q = if x < 0 {
                pow10((-x) as nat)
            } else {
                1nat
            };
            is_infinite(nearest(p, q).0, nearest(p, q).1)
        }),
{
    let a = pow10((count - 1) as nat);
    lemma_pow10_pow2(1200);
    lemma_pow2_mono(1100, 1200);
    if x > 0 {
        let b = pow10(x as nat);
        lemma_pow10_pos(x as nat);
        lemma_pow10_add((count - 1) as nat, x as nat);
        lemma_pow10_mono(1200, (count - 1 + x) as nat);
        assert(d * b >= a * b) by (nonlinear_arith)
            requires
                d >= a,
        ;
        assert(1 * pow2(1100) == pow2(1100)) by (nonlinear_arith);
        lemma_huge_is_infinite(d * b, 1);
    } else if x == 0 {
        lemma_pow10_mono(1200, (count - 1) as nat);
        assert(1 * pow2(1100) == pow2(1100)) by (nonlinear_arith);
        lemma_huge_is_infinite(d, 1);
    } else {
        let b = pow10((-x) as nat);
        let c = pow10((count - 1 + x) as nat);
        lemma_pow10_pos((-x) as nat);
        lemma_pow10_add((-x) as nat, (count - 1 + x) as nat);
        lemma_pow10_mono(1200, (count - 1 + x) as nat);
        assert(b * c >= b * pow2(1100)) by (nonlinear_arith)
            requires
                c >= pow2(1100),
        ;
        lemma_huge_is_infinite(d, b);
    }
}

proof fn lemma_far_below(d: nat, count: nat, x: int)
    requires
        d < pow10(count),
        count + x < -1200,
    ensures
        nearest(d, pow10((-x) as nat)) == (0nat, -1074int),
{
    let a = pow10(count);
    let b = pow10((-x) as nat);
    let c = pow10((-x - count) as nat);
    lemma_pow10_pos((-x) as nat);
    lemma_pow10_add(count, (-x - count) as nat);
    lemma_pow10_pow2(1100);
    lemma_pow10_mono(1100, (-x - count) as nat);
    assert(d * pow2(1100) <= a * c) by (nonlinear_arith)
        requires
            d <= a,
            pow2(1100) <= c,
    ;
    lemma_tiny_is_zero(d, b);
}

proof fn lemma_zero(q: nat)
    requires
        q > 0,
    ensures
        nearest(0, q) == (0nat, -1074int),
{
    assert(0 * pow2(1100) == 0) by (nonlinear_arith);
    lemma_tiny_is_zero(0, q);
}

proof fn lemma_zero_product(unit: nat)
    ensures
        product(0, -1074, unit) == 0,
{
    assert(0 * unit == 0) by (nonlinear_arith);
    lemma_pow2_pos(1074);
    assert(1 * pow2(1074) == pow2(1074)) by (nonlinear_arith);
    lemma_zero(pow2(1074));
    assert(0nat / pow2(1074) == 0) by (nonlinear_arith)
        requires
            pow2(1074) > 0,
    ;
}

/// What the digits of a mantissa, an exponent and a sign come to.
fn measured_digits(
    digits: &[char],
    fraction: usize,
    exponent: i128,
    negative: bool,
    unit: u64,
    Ghost(x): Ghost<int>,
) -> (r: Amount)
    requires
        all_digits(digits@),
        fraction <= digits@.len(),
        ({
            let cap = 0x10_0000_0000_0000_0000_0000_0000int;
            &&& -cap <= exponent <= cap
            &&& -cap < exponent < cap ==> exponent == x
            &&& exponent == cap ==> x >= cap
            &&& exponent == -cap ==> x <= -cap
        }),
    ensures
        ({
            let e = x - fraction;
            let (m, k) = nearest(numerator(digits@, e), denominator(e));
            r == (if is_infinite(m, k) || (negative && m > 0) {
                Amount::OutOfRange
            } else {
                Amount::Value(product(m, k, unit as nat))
            })
        }),
{
    let ghost e = x - fraction;
    proof {
        if e < 0 {
            lemma_pow10_pos((-e) as nat);
        }
    }
    let (d, count) = match digits_number(digits) {
        Some(found) => found,
        None => {
            return Amount::Unrecognized;
        },
    };
    if count == 0 {
        proof {
            assert(d@ == 0);
            if e > 0 {
                assert(0 * pow10(e as nat) == 0) by (nonlinear_arith);
            }
            lemma_zero(denominator(e));
            lemma_zero_product(unit as nat);
        }
        return Amount::Value(0);
    }
    let near: i128 = exponent - fraction as i128;
    if count as i128 + near > 1200 {
        proof {
            lemma_far_above(d@, count as nat, e);
        }
        return Amount::OutOfRange;
    }
    if count as i128 + near < -1200 {
        proof {
            lemma_far_below(d@, count as nat, e);
            lemma_zero_product(unit as nat);
        }
        return Amount::Value(0);
    }
    proof {
        lemma_pow10_pos((count - 1) as nat);
        assert(near == e);
    }
    let (m, k) = rounded(d, count, near);
    if infinite(m, k) || (negative && m > 0) {
        Amount::OutOfRange
    } else {
        Amount::Value(product_of(m, k, unit))
    }
}

/// What a text times a unit comes to.
pub fn measured(v: &[char], unit: u64) -> (r: Amount)
    ensures
        r == amount(v@, unit as nat),
{
    let low = lowered(without_sign(v));
    let t: &[char] = low.as_slice();
    if spells(t, "inf") || spells(t, "infinity") || spells(t, "nan") {
        return Amount::OutOfRange;
    }
    let e: usize = find_char(t, 'e');
    let m: &[char] = slice_subrange(t, 0, e);
    assert(m@ =~= t@.take(e as int));
    let dot: usize = find_char(m, '.');
    let mut digits: Vec<char> = slice_to_vec(slice_subrange(m, 0, dot));
    assert(digits@ =~= whole_digits(m@));
    let mut fraction: usize = 0;
    if dot < m.len() {
        let f: &[char] = slice_subrange(m, dot + 1, m.len());
        assert(f@ =~= fraction_digits(m@));
        digits.extend_from_slice(f);
        fraction = f.len();
    } else {
        assert(digits@ =~= whole_digits(m@) + fraction_digits(m@));
    }
    assert(digits@ =~= whole_digits(m@) + fraction_digits(m@));
    let exponent: Option<i128> = if e < t.len() {
        let x: &[char] = slice_subrange(t, e + 1, t.len());
        assert(x@ =~= t@.skip(e + 1));
        exponent_capped(x)
    } else {
        Some(0)
    };
    let ghost spelled: Option<int> = if e < t@.len() {
        exponent_of(t@.skip(e + 1))
    } else {
        Some(0)
    };
    if digits.len() == 0 {
        return Amount::Unrecognized;
    }
    if digits_capped(digits.as_slice()).is_none() {
        return Amount::Unrecognized;
    }
    match exponent {
        None => Amount::Unrecognized,
        Some(x) => measured_digits(
            digits.as_slice(),
            fraction,
            x,
            v.len() > 0 && v[0] == '-',
            unit,
            Ghost(spelled->Some_0),
        ),
    }
}

/// A fraction that is a whole number below two to the 53, doubled `e` times, is
/// its own nearest number.
proof fn lemma_exact(n: nat, e: nat, q: nat)
    requires
        q > 0,
        n < 0x20_0000_0000_0000,
    ensures
        ({
            let (m, k) = nearest((n * pow2(e)) * q, q);
            &&& -1074 <= k <= e
            &&& k <= 0 ==> m == (n * pow2(e)) * pow2((-k) as nat)
            &&& k >= 0 ==> m * pow2(k as nat) == n * pow2(e)
            &&& whole_part(m, k) == n * pow2(e)
        }),
{
    let x = n * pow2(e);
    let p = x * q;
    lemma_pow2_53();
    lemma_pow2_pos(e);
    let d = pow2(e);
    assert(q * d > 0) by (nonlinear_arith)
        requires
            q > 0,
            d > 0,
    ;
    assert(p == n * (q * d)) by (nonlinear_arith)
        requires
            p == (n * d) * q,
    ;
    assert(p < 0x20_0000_0000_0000 * (q * d)) by (nonlinear_arith)
        requires
            p == n * (q * d),
            n < 0x20_0000_0000_0000,
            q * d > 0,
    ;
    assert(q * pow2(0) == q) by (nonlinear_arith)
        requires
            pow2(0) == 1,
    ;
    assert(fits(p, q, e as int));
    lemma_exponent_exists(p, q, e as int);
    let k = exponent(p, q);
    if k > e {
        lemma_fits_above(p, q, e as int, k - 1);
    }
    let (m, _) = nearest(p, q);
    if k > 0 {
        let w = pow2(k as nat);
        let f = pow2((e - k) as nat);
        lemma_pow2_add((e - k) as nat, k as nat);
        lemma_pow2_pos(k as nat);
        assert(q * w > 0) by (nonlinear_arith)
            requires
                q > 0,
                w > 0,
        ;
        assert(p == (n * f) * (q * w)) by (nonlinear_arith)
            requires
                p == (n * d) * q,
                d == f * w,
        ;
        lemma_fundamental_div_mod_converse(p as int, (q * w) as int, (n * f) as int, 0);
        assert(m == n * f);
        assert(m * w == n * d) by (nonlinear_arith)
            requires
                m == n * f,
                d == f * w,
        ;
    } else {
        let w = pow2((-k) as nat);
        lemma_pow2_pos((-k) as nat);
        if k == 0 {
            assert(p * w == p && x * w == x) by (nonlinear_arith)
                requires
                    w == 1,
            ;
        }
        let u = up(p, k);
        assert(u == (x * w) * q) by (nonlinear_arith)
            requires
                u == p * w,
                p == x * q,
        ;
        lemma_fundamental_div_mod_converse(u as int, q as int, (x * w) as int, 0);
        assert(m == x * w);
        if k < 0 {
            lemma_fundamental_div_mod_converse(m as int, w as int, x as int, 0);
        }
    }
}

/// At most the largest number that 64 bits hold.
pub open spec fn saturated(n: nat) -> u64 {
    if n > u64::MAX {
        u64::MAX
    } else {
        n as u64
    }
}

/// What a whole number of units comes to, before it is a whole number again.
proof fn lemma_amount(n: nat, unit: nat) -> (w: nat)
    requires
        n < 0x20_0000_0000_0000,
    ensures
        w > 0,
        ({
            let (m, k) = nearest((n * unit) * w, w);
            amount(decimal(n), unit) == Amount::Value(saturated(whole_part(m, k)))
        }),
{
    let s = decimal(n);
    lemma_decimal(n);
    assert(is_digit(s[0]));
    assert(unsigned(s) == s);
    let t = lower(s);
    assert forall|i: int| 0 <= i < s.len() implies #[trigger] t[i] == s[i] && t[i] != 'e' && t[i]
        != '.' by {
        assert(is_digit(s[i]));
    }
    assert(t =~= s);
    lemma_find_is(t, 'e', t.len() as int);
    let m = t.take(t.len() as int);
    assert(m =~= s);
    lemma_find_is(m, '.', m.len() as int);
    assert(whole_digits(m) + fraction_digits(m) =~= s);
    reveal_strlit("inf");
    reveal_strlit("infinity");
    reveal_strlit("nan");
    assert("inf"@[0] == 'i' && "infinity"@[0] == 'i' && "nan"@[0] == 'n');
    assert((n * pow2(0)) * 1 == n && n * pow2(0) == n) by (nonlinear_arith)
        requires
            pow2(0) == 1,
    ;
    lemma_exact(n, 0, 1);
    let (a, k) = nearest(n, 1);
    let w = pow2((-k) as nat);
    lemma_pow2_pos((-k) as nat);
    lemma_pow2_53();
    if k == 0 {
        assert(a * pow2(0) == a && n * pow2(0) == n) by (nonlinear_arith)
            requires
                pow2(0) == 1,
        ;
        lemma_pow2_mono(53, 1024);
        assert(up(1, k) == w);
    } else {
        assert(1 * w == w) by (nonlinear_arith);
    }
    assert(a * unit == (n * unit) * w) by (nonlinear_arith)
        requires
            a == n * w,
    ;
    w
}

/// A whole number of units comes to exactly that many, as long as the number
/// and the product are below two to the 53.
pub proof fn whole_numbers_are_exact(n: nat, unit: nat)
    requires
        n < 0x20_0000_0000_0000,
        n * unit < 0x20_0000_0000_0000,
    ensures
        amount(decimal(n), unit) == Amount::Value((n * unit) as u64),
{
    let w = lemma_amount(n, unit);
    assert((n * unit) * pow2(0) == n * unit) by (nonlinear_arith)
        requires
            pow2(0) == 1,
    ;
    lemma_exact(n * unit, 0, w);
}

/// A whole number below two to the 53 of units that are a power of two comes to
/// exactly that many, up to the largest number that 64 bits hold.
pub proof fn powers_of_two_are_exact(n: nat, e: nat)
    requires
        n < 0x20_0000_0000_0000,
    ensures
        amount(decimal(n), pow2(e)) == Amount::Value(saturated(n * pow2(e))),
{
    let w = lemma_amount(n, pow2(e));
    lemma_exact(n, e, w);
}

/// A quotient is rounded to the nearest whole number, and of two that are as
/// near to the even one.
pub proof fn a_quotient_is_rounded_to_the_nearest_and_to_even(p: nat, q: nat)
    requires
        q > 0,
    ensures
        2 * p <= (2 * half_even(p, q) + 1) * q,
        2 * p >= (2 * half_even(p, q) - 1) * q,
        (2 * p == (2 * half_even(p, q) + 1) * q || 2 * p == (2 * half_even(p, q) - 1) * q)
            ==> half_even(p, q) % 2 == 0,
{
    let f = p / q;
    let r = p % q;
    assert(p == f * q + r && 0 <= r < q) by (nonlinear_arith)
        requires
            q > 0,
            f == p / q,
            r == p % q,
    ;
    assert((2 * f + 1) * q == 2 * (f * q) + q) by (nonlinear_arith);
    assert((2 * f - 1) * q == 2 * (f * q) - q) by (nonlinear_arith);
    assert((2 * (f + 1) - 1) * q == 2 * (f * q) + q) by (nonlinear_arith);
    assert((2 * (f + 1) + 1) * q == 2 * (f * q) + 3 * q) by (nonlinear_arith);
}

/// A number is kept to as many bits as it takes, 53 at most, and never coarser
/// than that: where its unit is not the finest there is, it takes all 53.
pub proof fn a_number_is_kept_to_53_bits(p: nat, q: nat)
    requires
        q > 0,
    ensures
        nearest(p, q).1 >= -1074,
        nearest(p, q).0 <= 0x20_0000_0000_0000,
        nearest(p, q).1 > -1074 ==> nearest(p, q).0 >= 0x10_0000_0000_0000,
{
    lemma_has_exponent(p, q);
    lemma_pow2_53();
    let k = exponent(p, q);
    let a = up(p, k);
    let b = down(q, k);
    if k > 0 {
        lemma_pow2_pos(k as nat);
        assert(b > 0) by (nonlinear_arith)
            requires
                b == q * pow2(k as nat),
                q > 0,
                pow2(k as nat) > 0,
        ;
    }
    a_quotient_is_rounded_to_the_nearest_and_to_even(a, b);
    let m = half_even(a, b);
    assert(a < 0x20_0000_0000_0000 * b);
    if m > 0x20_0000_0000_0000 {
        assert((2 * m - 1) * b >= (2 * 0x20_0000_0000_0000 + 1) * b) by (nonlinear_arith)
            requires
                m >= 0x20_0000_0000_0001,
        ;
        assert((2 * 0x20_0000_0000_0000 + 1) * b == 2 * (0x20_0000_0000_0000 * b) + b)
            by (nonlinear_arith);
    }
    if k > -1074 {
        // One finer unit has no room.
        assert(2 * a >= 0x20_0000_0000_0000 * b) by {
            if k > 0 {
                let x = pow2((k - 1) as nat);
                assert(b == 2 * (q * x)) by (nonlinear_arith)
                    requires
                        b == q * (2 * x),
                ;
                if k == 1 {
                    assert(q * x == q) by (nonlinear_arith)
                        requires
                            x == 1,
                    ;
                }
            } else {
                let x = pow2((-k) as nat);
                assert(p * (2 * x) == 2 * (p * x)) by (nonlinear_arith);
                assert(pow2((-k + 1) as nat) == 2 * x);
                if k == 0 {
                    assert(p * x == p) by (nonlinear_arith)
                        requires
                            x == 1,
                    ;
                }
            }
        }
        if m < 0x10_0000_0000_0000 {
            assert((2 * m + 1) * b <= (2 * 0x10_0000_0000_0000 - 1) * b) by (nonlinear_arith)
                requires
                    m + 1 <= 0x10_0000_0000_0000,
            ;
            assert((2 * 0x10_0000_0000_0000 - 1) * b == 0x20_0000_0000_0000 * b - b)
                by (nonlinear_arith);
        }
    }
}

/// What is below one unit is cut off, never rounded up.
pub proof fn what_is_below_a_unit_is_cut_off(m: nat, k: int)
    ensures
        k < 0 ==> whole_part(m, k) * pow2((-k) as nat) <= m < (whole_part(m, k) + 1) * pow2(
            (-k) as nat,
        ),
        k >= 0 ==> whole_part(m, k) == m * pow2(k as nat),
{
    if k < 0 {
        let d = pow2((-k) as nat);
        lemma_pow2_pos((-k) as nat);
        let f = m / d;
        assert(f * d <= m < (f + 1) * d) by (nonlinear_arith)
            requires
                d > 0,
                f == m / d,
        ;
    }
}

/// Digits with a point among them are the number that the digits spell, shifted
/// by as many places as stand behind the point; a sign before them says whether
/// it is negative.
pub proof fn a_point_shifts_the_digits(a: Seq<char>, b: Seq<char>)
    requires
        all_digits(a),
        all_digits(b),
        a.len() + b.len() > 0,
    ensures
        literal(a + seq!['.'] + b) == Some(
            (Literal::Number { negative: false, digits: a + b, exponent: -(b.len() as int) }),
        ),
        literal(seq!['-'] + (a + seq!['.'] + b)) == Some(
            (Literal::Number { negative: true, digits: a + b, exponent: -(b.len() as int) }),
        ),
        literal(seq!['+'] + (a + seq!['.'] + b)) == literal(a + seq!['.'] + b),
{
    let s = a + seq!['.'] + b;
    lemma_pointed(s, s, a, b);
    lemma_pointed(seq!['-'] + s, s, a, b);
    lemma_pointed(seq!['+'] + s, s, a, b);
}

proof fn lemma_pointed(full: Seq<char>, s: Seq<char>, a: Seq<char>, b: Seq<char>)
    requires
        all_digits(a),
        all_digits(b),
        a.len() + b.len() > 0,
        s == a + seq!['.'] + b,
        full == s || full == seq!['-'] + s || full == seq!['+'] + s,
    ensures
        literal(full) == Some(
            (Literal::Number {
                negative: full == seq!['-'] + s,
                digits: a + b,
                exponent: -(b.len() as int),
            }),
        ),
{
    assert forall|i: int| 0 <= i < s.len() implies is_digit(#[trigger] s[i]) || s[i] == '.' by {
        if i < a.len() {
            assert(is_digit(a[i]));
        } else if i > a.len() {
            assert(is_digit(b[i - a.len() - 1]));
        }
    }
    assert(s.len() > 0);
    assert(is_digit(s[0]) || s[0] == '.');
    if full != s {
        assert(full[0] == '-' || full[0] == '+');
        assert(full.drop_first() =~= s);
    }
    assert(unsigned(full) == s);
    if full == seq!['-'] + s {
        assert(full[0] == '-');
    } else {
        assert(full[0] != '-');
    }
    let t = lower(s);
    assert(t =~= s) by {
        assert forall|i: int| 0 <= i < s.len() implies #[trigger] t[i] == s[i] by {}
    }
    assert forall|i: int| 0 <= i < t.len() implies t[i] != 'e' by {
        assert(is_digit(s[i]) || s[i] == '.');
    }
    lemma_find_is(t, 'e', t.len() as int);
    let m = t.take(t.len() as int);
    assert(m =~= s);
    assert forall|i: int| 0 <= i < a.len() implies m[i] != '.' by {
        assert(m[i] == a[i]);
        assert(is_digit(a[i]));
    }
    assert(m[a.len() as int] == '.');
    lemma_find_is(m, '.', a.len() as int);
    assert(whole_digits(m) =~= a);
    assert(fraction_digits(m) =~= b);
    assert forall|i: int| 0 <= i < (a + b).len() implies is_digit(#[trigger] (a + b)[i]) by {
        if i < a.len() {
            assert(is_digit(a[i]));
        } else {
            assert(is_digit(b[i - a.len()]));
        }
    }
    reveal_strlit("inf");
    reveal_strlit("infinity");
    reveal_strlit("nan");
    assert("inf"@[0] == 'i' && "infinity"@[0] == 'i' && "nan"@[0] == 'n');
}

/// An amount is the number that a text spells, kept to 53 bits, times the unit,
/// kept to 53 bits, less what is below one, up to the largest that 64 bits hold.
/// What is no number is not recognized; what is not finite, or below nothing, is
/// out of range.
pub proof fn an_amount_is_its_number_times_the_unit(s: Seq<char>, unit: nat)
    ensures
        literal(s) is None <==> amount(s, unit) is Unrecognized,
        literal(s) == Some(Literal::NotFinite) ==> amount(s, unit) is OutOfRange,
        literal(s) is Some && literal(s)->Some_0 is Number ==> {
            let e = literal(s)->Some_0->exponent;
            let d = digits_value(literal(s)->Some_0->digits);
            let p = if e > 0 {
                d * pow10(e as nat)
            } else {
                d
            };
            let q = if e < 0 {
                pow10((-e) as nat)
            } else {
                1
            };
            let (m, k) = nearest(p, q);
            let (m2, k2) = nearest(
                if k > 0 {
                    (m * unit) * pow2(k as nat)
                } else {
                    m * unit
                },
                if k < 0 {
                    1 * pow2((-k) as nat)
                } else {
                    1
                },
            );
            &&& literal(s)->Some_0->negative && m > 0 ==> amount(s, unit) is OutOfRange
            &&& k >= 0 && m * pow2(k as nat) >= pow2(1024) ==> amount(s, unit) is OutOfRange
            &&& !(literal(s)->Some_0->negative && m > 0) && !(k >= 0 && m * pow2(k as nat) >= pow2(
                1024,
            )) ==> amount(s, unit) == Amount::Value(saturated(whole_part(m2, k2)))
        },
{
}

/// Behind the letter of an exponent stands how many places to shift by, with a
/// sign before it or without, in either case of the letter; without digits on
/// either side it is no number.
pub proof fn an_exponent_shifts_the_digits(a: Seq<char>, x: Seq<char>, e: char)
    requires
        all_digits(a),
        a.len() > 0,
        all_digits(x),
        x.len() > 0,
        e == 'e' || e == 'E',
    ensures
        literal(a + seq![e] + x) == Some(
            (Literal::Number { negative: false, digits: a, exponent: digits_value(x) as int }),
        ),
        literal(a + seq![e] + (seq!['+'] + x)) == literal(a + seq![e] + x),
        literal(a + seq![e] + (seq!['-'] + x)) == Some(
            (Literal::Number { negative: false, digits: a, exponent: -(digits_value(x) as int) }),
        ),
        literal(seq![e] + x) is None,
        literal(a + seq![e]) is None,
        literal(Seq::empty()) is None,
{
    assert((seq!['+'] + x).drop_first() =~= x);
    assert((seq!['-'] + x).drop_first() =~= x);
    assert(is_digit(x[0]));
    assert(is_digit(a[0]));
    lemma_exponent(a, x, e);
    lemma_exponent(a, seq!['+'] + x, e);
    lemma_exponent(a, seq!['-'] + x, e);
    assert(a + seq![e] + Seq::<char>::empty() =~= a + seq![e]);
    lemma_exponent(a, Seq::empty(), e);
    let none = Seq::<char>::empty();
    assert(none + seq![e] + x =~= seq![e] + x);
    lemma_exponent(none, x, e);
    reveal_strlit("inf");
    reveal_strlit("infinity");
    reveal_strlit("nan");
    assert("inf"@.len() == 3 && "infinity"@.len() == 8 && "nan"@.len() == 3);
    assert(lower(none) =~= none);
    assert(find(none, 'e') == 0);
    assert(none.take(0) =~= none);
    assert(whole_digits(none) + fraction_digits(none) =~= none);
}

proof fn lemma_exponent(a: Seq<char>, x: Seq<char>, e: char)
    requires
        all_digits(a),
        e == 'e' || e == 'E',
        forall|i: int|
            0 <= i < x.len() ==> is_digit(#[trigger] x[i]) || x[i] == '+' || x[i] == '-',
    ensures
        ({
            let s = a + seq![e] + x;
            let shift = exponent_of(x);
            literal(s) == (if a.len() == 0 || shift is None {
                None
            } else {
                Some(
                    (Literal::Number { negative: false, digits: a, exponent: shift->Some_0 }),
                )
            })
        }),
{
    let s = a + seq![e] + x;
    let n = a.len() as int;
    if n > 0 {
        assert(is_digit(a[0]));
    }
    assert(s[0] == (if n > 0 {
        a[0]
    } else {
        e
    }));
    assert(unsigned(s) == s);
    let t = lower(s);
    assert forall|i: int| 0 <= i < n implies #[trigger] t[i] == a[i] && t[i] != 'e' by {
        assert(is_digit(a[i]));
        assert(s[i] == a[i]);
    }
    assert(s[n] == e);
    assert(t[n] == 'e');
    lemma_find_is(t, 'e', n);
    let m = t.take(n);
    assert(m =~= a);
    assert forall|i: int| 0 <= i < n implies m[i] != '.' by {
        assert(is_digit(a[i]));
    }
    lemma_find_is(m, '.', n);
    assert(whole_digits(m) =~= a);
    assert(fraction_digits(m) =~= Seq::empty());
    assert(whole_digits(m) + fraction_digits(m) =~= a);
    assert(t.skip(n + 1) =~= x) by {
        assert forall|i: int| 0 <= i < x.len() implies t.skip(n + 1)[i] == x[i] by {
            assert(is_digit(x[i]) || x[i] == '+' || x[i] == '-');
            assert(s[n + 1 + i] == x[i]);
        }
    }
    reveal_strlit("inf");
    reveal_strlit("infinity");
    reveal_strlit("nan");
    assert("inf"@[0] == 'i' && "infinity"@[0] == 'i' && "nan"@[0] == 'n');
    if n > 0 {
        assert(t[0] == a[0]);
    }
}

} // verus!
