//! What holds of the durations and sizes that are written in whole numbers.

use crate::append::{
    conflict_said, duration_ms, duration_outcome, duration_unit, policy_outcome, secs_said,
    size_bytes, size_outcome, size_unit, upper, upper_char, without_last, MeasureError,
};
use crate::measure::{pow2, powers_of_two_are_exact, saturated, whole_numbers_are_exact, Amount};
use crate::text::{decimal, is_digit, is_space, lemma_decimal, trim};
use crate::text_laws::{blank, white_space_around_is_taken_off};
use vstd::prelude::*;

verus! {

proof fn lemma_nothing_to_trim(s: Seq<char>)
    requires
        s.len() > 0,
        !is_space(s[0]),
        !is_space(s.last()),
    ensures
        trim(s) == s,
{
}

/// A whole number of weeks, days, hours, minutes or seconds is exactly that
/// many milliseconds, as long as the number and the milliseconds are below two
/// to the 53. A number alone is seconds.
pub proof fn whole_durations_are_exact(n: nat, letter: Option<char>)
    requires
        n < 0x20_0000_0000_0000,
        letter matches Some(c) ==> duration_unit(c) is Some && n * duration_unit(c)->Some_0
            < 0x20_0000_0000_0000,
        letter is None ==> n * 1_000 < 0x20_0000_0000_0000,
    ensures
        match letter {
            Some(c) => duration_ms(decimal(n).push(c)) == Amount::Value(
                (n * duration_unit(c)->Some_0) as u64,
            ),
            None => duration_ms(decimal(n)) == Amount::Value((n * 1_000) as u64),
        },
{
    let d = decimal(n);
    lemma_decimal(n);
    assert(is_digit(d[0]) && is_digit(d.last()));
    lemma_nothing_to_trim(d);
    match letter {
        Some(c) => {
            let s = d.push(c);
            assert(s[0] == d[0]);
            lemma_nothing_to_trim(s);
            assert(s.drop_last() =~= d);
            whole_numbers_are_exact(n, duration_unit(c)->Some_0);
        },
        None => {
            whole_numbers_are_exact(n, 1_000);
        },
    }
}

/// What may stand behind the unit letter of a size, in upper case.
pub open spec fn is_size_ending(e: Seq<char>) -> bool {
    e == Seq::<char>::empty() || e == seq!['B'] || e == seq!['I', 'B']
}

/// How many bytes a size's unit is; one, where it has none.
pub open spec fn bytes_of_unit(letter: Option<char>) -> nat {
    match letter {
        Some(c) => size_unit(c)->Some_0,
        None => 1,
    }
}

/// The unit letter, where there is one, and what stands behind it.
pub open spec fn unit_spelled(letter: Option<char>, ending: Seq<char>) -> Seq<char> {
    match letter {
        Some(c) => seq![c] + ending,
        None => ending,
    }
}

/// A whole number of bytes, or of the powers of 1024 that `K`, `M`, `G` and `T`
/// stand for, is exactly that many bytes, up to the largest number that 64 bits
/// hold: with nothing, `B` or `iB` behind the letter, and each letter in either
/// case.
pub proof fn whole_sizes_are_exact(
    n: nat,
    letter: Option<char>,
    ending: Seq<char>,
    suffix: Seq<char>,
)
    requires
        n < 0x20_0000_0000_0000,
        letter matches Some(c) ==> size_unit(c) is Some,
        is_size_ending(ending),
        upper(suffix) == unit_spelled(letter, ending),
    ensures
        size_bytes(decimal(n) + suffix) == Amount::Value(saturated(n * bytes_of_unit(letter))),
{
    let d = decimal(n);
    let s = d + suffix;
    lemma_decimal(n);
    assert(is_digit(d[0]) && is_digit(d.last()));
    lemma_nothing_to_trim(d);
    assert(s[0] == d[0]);
    let spelled = unit_spelled(letter, ending);
    assert(upper(suffix).len() == suffix.len());
    assert(!is_space(s.last())) by {
        if suffix.len() > 0 {
            let k = suffix.len() - 1;
            assert(s.last() == suffix[k]);
            assert(spelled[k] == upper_char(suffix[k]));
            assert(spelled[k] == (if ending.len() > 0 {
                'B'
            } else {
                letter->Some_0
            }));
        } else {
            assert(s.last() == d.last());
        }
    }
    lemma_nothing_to_trim(s);
    let head = unit_spelled(letter, Seq::empty());
    let want = d + head;
    assert(spelled =~= head + ending);
    assert(upper(s) =~= want + ending) by {
        assert(upper(s).len() == (want + ending).len());
        assert forall|i: int| 0 <= i < s.len() implies #[trigger] upper(s)[i] == (want + ending)[i]
            by {
            if i < d.len() {
                assert(is_digit(d[i]));
                assert(s[i] == d[i]);
            } else {
                assert(s[i] == suffix[i - d.len()]);
                assert(spelled[i - d.len()] == upper_char(suffix[i - d.len()]));
            }
        }
    }
    assert(want.last() != 'B' && want.last() != 'I') by {
        if letter is None {
            assert(want.last() == d.last());
        }
    }
    let t = without_last(without_last(upper(s), 'B'), 'I');
    if ending.len() == 0 {
        assert(upper(s) =~= want);
    } else if ending.len() == 1 {
        assert(upper(s).last() == 'B');
        assert(upper(s).drop_last() =~= want);
    } else {
        assert(upper(s).last() == 'B');
        assert(upper(s).drop_last() =~= want.push('I'));
        assert(want.push('I').drop_last() =~= want);
    }
    assert(t == want);
    reveal_with_fuel(pow2, 41);
    match letter {
        Some(c) => {
            assert(want.last() == c);
            assert(want.drop_last() =~= d);
            let e: nat = if c == 'K' {
                10
            } else if c == 'M' {
                20
            } else if c == 'G' {
                30
            } else {
                40
            };
            assert(size_unit(c) == Some(pow2(e)));
            powers_of_two_are_exact(n, e);
        },
        None => {
            assert(want =~= d);
            assert(size_unit(want.last()) is None);
            powers_of_two_are_exact(n, 0);
        },
    }
}

/// A duration counts in the unit that its letter says, in either case: weeks of
/// seven days, days of twenty-four hours, hours of sixty minutes, minutes of
/// sixty seconds, and seconds, which a bare number counts too.
pub proof fn each_letter_counts_in_its_own_unit(n: nat, c: char, seconds: nat)
    requires
        ({
            ||| (c == 's' || c == 'S') && seconds == 1
            ||| (c == 'm' || c == 'M') && seconds == 60
            ||| (c == 'h' || c == 'H') && seconds == 60 * 60
            ||| (c == 'd' || c == 'D') && seconds == 24 * 60 * 60
            ||| (c == 'w' || c == 'W') && seconds == 7 * 24 * 60 * 60
        }),
        n * (seconds * 1_000) < 0x20_0000_0000_0000,
    ensures
        duration_ms(decimal(n).push(c)) == Amount::Value((n * (seconds * 1_000)) as u64),
        c == 's' ==> duration_ms(decimal(n)) == duration_ms(decimal(n).push(c)),
{
    assert(n <= n * (seconds * 1_000)) by (nonlinear_arith)
        requires
            seconds >= 1,
    ;
    whole_durations_are_exact(n, Some(c));
    if c == 's' {
        whole_durations_are_exact(n, None);
    }
}

/// A size counts in bytes, or in the unit that its letter says, each a thousand
/// and twenty-four of the one before, whichever way the unit is spelled; one
/// that is too large for 64 bits is the largest that they hold.
pub proof fn each_size_letter_is_a_power_of_1024(n: nat, letter: char, suffix: Seq<char>)
    requires
        n < 0x20_0000_0000_0000,
        upper(suffix) == seq![letter] || upper(suffix) == seq![letter, 'B'] || upper(suffix)
            == seq![letter, 'I', 'B'],
    ensures
        size_bytes(decimal(n)) == Amount::Value(n as u64),
        letter == 'K' ==> size_bytes(decimal(n) + suffix) == Amount::Value(saturated(n * 1024)),
        letter == 'M' ==> size_bytes(decimal(n) + suffix) == Amount::Value(
            saturated(n * (1024 * 1024)),
        ),
        letter == 'G' ==> size_bytes(decimal(n) + suffix) == Amount::Value(
            saturated(n * (1024 * 1024 * 1024)),
        ),
        letter == 'T' ==> size_bytes(decimal(n) + suffix) == Amount::Value(
            saturated(n * (1024 * 1024 * 1024 * 1024)),
        ),
        saturated(n * 1024) <= n * 1024,
        n * 1024 <= u64::MAX ==> saturated(n * 1024) == n * 1024,
        n * 1024 > u64::MAX ==> saturated(n * 1024) == u64::MAX,
{
    assert(upper(Seq::empty()) =~= Seq::empty());
    whole_sizes_are_exact(n, None, Seq::empty(), Seq::empty());
    assert(decimal(n) + Seq::<char>::empty() =~= decimal(n));
    if size_unit(letter) is Some {
        let ending = if upper(suffix) == seq![letter] {
            Seq::empty()
        } else if upper(suffix) == seq![letter, 'B'] {
            seq!['B']
        } else {
            seq!['I', 'B']
        };
        assert(unit_spelled(Some(letter), ending) =~= upper(suffix));
        whole_sizes_are_exact(n, Some(letter), ending, suffix);
    }
}

/// White space around a duration means nothing, nor does white space before its
/// letter; and so of a size.
pub proof fn white_space_in_an_amount_means_nothing(
    n: nat,
    c: char,
    a: Seq<char>,
    b: Seq<char>,
    d: Seq<char>,
)
    requires
        blank(a),
        blank(b),
        blank(d),
        !is_space(c),
        'B' != c && 'b' != c,
    ensures
        duration_ms(a + (decimal(n) + b + seq![c]) + d) == duration_ms(decimal(n) + b + seq![c]),
        duration_unit(c) is Some ==> duration_ms(decimal(n) + b + seq![c]) == duration_ms(
            decimal(n).push(c),
        ),
        size_bytes(a + (decimal(n) + b + seq![c]) + d) == size_bytes(decimal(n) + b + seq![c]),
{
    let m = decimal(n);
    lemma_decimal(n);
    assert(is_digit(m[0]) && is_digit(m.last()));
    let s = m + b + seq![c];
    assert(s[0] == m[0]);
    assert(s.last() == c);
    white_space_around_is_taken_off(a, s, d);
    lemma_nothing_to_trim(s);
    if duration_unit(c) is Some {
        assert(s.drop_last() =~= m + b);
        white_space_around_is_taken_off(Seq::empty(), m, b);
        assert(Seq::<char>::empty() + m + b =~= m + b);
        let t = m.push(c);
        assert(t[0] == m[0]);
        lemma_nothing_to_trim(t);
        assert(t.drop_last() =~= m);
        lemma_nothing_to_trim(m);
    }
}

/// A size may be written small: its letters mean the same in either case.
pub proof fn a_size_may_be_written_small(n: nat)
    requires
        n < 0x20_0000_0000_0000,
    ensures
        size_bytes(decimal(n) + seq!['k']) == size_bytes(decimal(n) + seq!['K']),
        size_bytes(decimal(n) + seq!['m']) == size_bytes(decimal(n) + seq!['M']),
        size_bytes(decimal(n) + seq!['g']) == size_bytes(decimal(n) + seq!['G']),
        size_bytes(decimal(n) + seq!['t']) == size_bytes(decimal(n) + seq!['T']),
        size_bytes(decimal(n) + seq!['k', 'i', 'b']) == size_bytes(decimal(n) + seq!['K']),
        size_bytes(decimal(n) + seq!['m', 'b']) == size_bytes(decimal(n) + seq!['M']),
{
    assert(upper(seq!['k']) =~= seq!['K']);
    assert(upper(seq!['K']) =~= seq!['K']);
    assert(upper(seq!['m']) =~= seq!['M']);
    assert(upper(seq!['M']) =~= seq!['M']);
    assert(upper(seq!['g']) =~= seq!['G']);
    assert(upper(seq!['G']) =~= seq!['G']);
    assert(upper(seq!['t']) =~= seq!['T']);
    assert(upper(seq!['T']) =~= seq!['T']);
    assert(upper(seq!['k', 'i', 'b']) =~= seq!['K', 'I', 'B']);
    assert(upper(seq!['m', 'b']) =~= seq!['M', 'B']);
    each_size_letter_is_a_power_of_1024(n, 'K', seq!['k']);
    each_size_letter_is_a_power_of_1024(n, 'K', seq!['K']);
    each_size_letter_is_a_power_of_1024(n, 'M', seq!['m']);
    each_size_letter_is_a_power_of_1024(n, 'M', seq!['M']);
    each_size_letter_is_a_power_of_1024(n, 'G', seq!['g']);
    each_size_letter_is_a_power_of_1024(n, 'G', seq!['G']);
    each_size_letter_is_a_power_of_1024(n, 'T', seq!['t']);
    each_size_letter_is_a_power_of_1024(n, 'T', seq!['T']);
    each_size_letter_is_a_power_of_1024(n, 'K', seq!['k', 'i', 'b']);
    each_size_letter_is_a_power_of_1024(n, 'M', seq!['m', 'b']);
}

/// Seconds are said with as many places as they need: none where they are whole,
/// and never a zero at the end.
pub proof fn seconds_are_said_with_the_places_they_need(s: nat, a: nat, b: nat, c: nat)
    requires
        a < 10,
        b < 10,
        c < 10,
    ensures
        secs_said(1_000 * s) == decimal(s),
        a > 0 ==> secs_said(1_000 * s + 100 * a) == decimal(s) + seq!['.'] + decimal(a),
        b > 0 ==> secs_said(1_000 * s + 100 * a + 10 * b) == decimal(s) + seq!['.'] + decimal(a)
            + decimal(b),
        c > 0 ==> secs_said(1_000 * s + 100 * a + 10 * b + c) == decimal(s) + seq!['.'] + decimal(a)
            + decimal(b) + decimal(c),
{
    reveal_strlit(".");
    reveal_strlit("");
    assert("."@ =~= seq!['.']);
    assert(decimal(s) + ""@ =~= decimal(s));
    if a > 0 {
        let m = 1_000 * s + 100 * a;
        assert(m / 1_000 == s && m % 1_000 == 100 * a);
        assert(secs_said(m) =~= decimal(s) + seq!['.'] + decimal(a));
    }
    if b > 0 {
        let m = 1_000 * s + 100 * a + 10 * b;
        let f = 100 * a + 10 * b;
        assert(m / 1_000 == s && m % 1_000 == f);
        assert(f % 100 == 10 * b && f / 100 == a && f / 10 % 10 == b && f % 10 == 0);
        assert(secs_said(m) =~= decimal(s) + seq!['.'] + decimal(a) + decimal(b));
    }
    if c > 0 {
        let m = 1_000 * s + 100 * a + 10 * b + c;
        let f = 100 * a + 10 * b + c;
        assert(m / 1_000 == s && m % 1_000 == f);
        assert(f % 100 == 10 * b + c && f / 100 == a && f / 10 % 10 == b && f % 10 == c);
        assert(secs_said(m) =~= decimal(s) + seq!['.'] + decimal(a) + decimal(b) + decimal(c));
    }
}

/// A duration and a size are taken where they are one, with their value, and
/// refused with what was written otherwise; a policy is taken where both of its
/// limits are, as far as they are given.
pub proof fn a_limit_is_taken_where_it_is_one(
    s: Seq<char>,
    d: Result<u64, MeasureError>,
    b: Result<u64, MeasureError>,
)
    requires
        duration_outcome(s, d),
        size_outcome(s, b),
    ensures
        d is Ok <==> duration_ms(s) is Value,
        d is Ok ==> duration_ms(s) == Amount::Value(d->Ok_0),
        d is Err ==> (d->Err_0 is UnrecognizedDuration <==> duration_ms(s) is Unrecognized),
        d is Err ==> (d->Err_0 is DurationOutOfRange <==> duration_ms(s) is OutOfRange),
        b is Ok <==> size_bytes(s) is Value,
        b is Ok ==> size_bytes(s) == Amount::Value(b->Ok_0),
        b is Err ==> (b->Err_0 is UnrecognizedSize <==> size_bytes(s) is Unrecognized),
        b is Err ==> (b->Err_0 is SizeOutOfRange <==> size_bytes(s) is OutOfRange),
{
}

/// A policy is taken exactly where each limit that is given is one.
pub proof fn a_policy_is_taken_where_its_limits_are(
    retain: Option<Seq<char>>,
    retain_size: Option<Seq<char>>,
    r: Result<(), MeasureError>,
)
    requires
        policy_outcome(retain, retain_size, r),
    ensures
        r is Ok <==> (retain is Some ==> duration_ms(retain->Some_0) is Value) && (retain_size
            is Some ==> size_bytes(retain_size->Some_0) is Value),
{
}

/// A writer that is in the way is named where it is known, and how long was
/// waited is said where anything was.
pub proof fn a_writer_in_the_way_is_named(name: Seq<char>, who: Seq<char>, wait_ms: nat)
    ensures
        conflict_said(name, Some(who), 0) == name + " already has a writer: "@ + who
            + "; one writer per log, so that one must exit before this one can take over"@,
        wait_ms > 0 ==> conflict_said(name, Some(who), wait_ms) == name + " already has a writer: "@
            + who + " — still held after waiting "@ + secs_said(wait_ms) + "s"@
            + "; one writer per log, so that one must exit before this one can take over"@,
        conflict_said(name, None, 0) == name
            + " already has a writer (another timberfs writer or a rotation)"@,
        wait_ms > 0 ==> conflict_said(name, None, wait_ms) == conflict_said(name, None, 0)
            + " — still held after waiting "@ + secs_said(wait_ms) + "s"@,
{
    reveal_strlit("");
    assert(conflict_said(name, Some(who), 0) =~= name + " already has a writer: "@ + who
        + "; one writer per log, so that one must exit before this one can take over"@);
    assert(conflict_said(name, None, 0) =~= name
        + " already has a writer (another timberfs writer or a rotation)"@);
    if wait_ms > 0 {
        assert(conflict_said(name, Some(who), wait_ms) =~= name + " already has a writer: "@ + who
            + " — still held after waiting "@ + secs_said(wait_ms) + "s"@
            + "; one writer per log, so that one must exit before this one can take over"@);
        assert(conflict_said(name, None, wait_ms) =~= conflict_said(name, None, 0)
            + " — still held after waiting "@ + secs_said(wait_ms) + "s"@);
    }
}

} // verus!
