//! Text: characters, UTF-8, and the few string operations everything else
//! is written with.

use crate::wire::same_run;
use vstd::prelude::*;
use vstd::slice::{slice_subrange, slice_to_vec};
use vstd::string::StringExecFns;
use vstd::utf8::{decode_utf8, encode_utf8_decode_utf8, valid_utf8};

verus! {

/// `std::string::String::from_utf8`: the text that the bytes spell, if they
/// are UTF-8, and nothing if they are not.
#[verifier::external_body]
pub(crate) fn utf8_text(b: &[u8]) -> (r: Option<String>)
    ensures
        r is Some <==> valid_utf8(b@),
        r is Some ==> r->Some_0@ == decode_utf8(b@),
{
    String::from_utf8(b.to_vec()).ok()
}

/// `std::string::String::push`: one more character at the end.
pub assume_specification[ String::push ](s: &mut String, c: char)
    ensures
        final(s)@ == old(s)@.push(c),
;

/// Whether two texts are the same characters in the same order.
pub(crate) fn same(a: &str, b: &str) -> (r: bool)
    ensures
        r == (a@ == b@),
{
    proof {
        encode_utf8_decode_utf8(a@);
        encode_utf8_decode_utf8(b@);
    }
    same_run(a.as_bytes(), b.as_bytes())
}

/// The text that `{:?}` writes for a string: the string in double quotes,
/// with what needs escaping escaped.
pub uninterp spec fn quoted(s: Seq<char>) -> Seq<char>;

/// `std::format!("{s:?}")`: the string as `str`'s `Debug` writes it.
#[verifier::external_body]
pub(crate) fn debug_text(s: &str) -> (r: String)
    ensures
        r@ == quoted(s@),
{
    format!("{s:?}")
}

/// The text that `{:?}` writes for a character.
pub uninterp spec fn quoted_char(c: char) -> Seq<char>;

/// `std::format!("{c:?}")`: the character as `char`'s `Debug` writes it.
#[verifier::external_body]
pub(crate) fn debug_char(c: char) -> (r: String)
    ensures
        r@ == quoted_char(c),
{
    format!("{c:?}")
}

/// A string's characters.
pub fn chars_of(s: &str) -> (v: Vec<char>)
    ensures
        v@ == s@,
{
    let mut v: Vec<char> = Vec::new();
    for c in it: s.chars()
        invariant
            v@ == it.seq().take(it.index() as int),
            it.seq() == s@,
    {
        v.push(c);
        assert(v@ =~= it.seq().take(it.index() + 1));
    }
    assert(v@ =~= s@);
    v
}

/// The string of the given characters.
pub fn text_of(v: &[char]) -> (s: String)
    ensures
        s@ == v@,
{
    let mut s = String::new();
    let mut i: usize = 0;
    while i < v.len()
        invariant
            i <= v@.len(),
            s@ == v@.take(i as int),
        decreases v@.len() - i,
    {
        s.push(v[i]);
        i = i + 1;
        assert(s@ =~= v@.take(i as int));
    }
    assert(v@.take(i as int) =~= v@);
    s
}

/// Unicode white space.
pub open spec fn is_space(c: char) -> bool {
    let n = c as u32;
    9 <= n <= 13 || n == 0x20 || n == 0x85 || n == 0xa0 || n == 0x1680 || 0x2000 <= n <= 0x200a
        || n == 0x2028 || n == 0x2029 || n == 0x202f || n == 0x205f || n == 0x3000
}

/// Whether a character is Unicode white space.
pub fn space(c: char) -> (r: bool)
    ensures
        r == is_space(c),
{
    let n: u32 = c as u32;
    (9 <= n && n <= 13) || n == 0x20 || n == 0x85 || n == 0xa0 || n == 0x1680 || (0x2000 <= n && n
        <= 0x200a) || n == 0x2028 || n == 0x2029 || n == 0x202f || n == 0x205f || n == 0x3000
}

pub open spec fn trim_start(s: Seq<char>) -> Seq<char>
    decreases s.len(),
{
    if s.len() > 0 && is_space(s[0]) {
        trim_start(s.drop_first())
    } else {
        s
    }
}

pub open spec fn trim_end(s: Seq<char>) -> Seq<char>
    decreases s.len(),
{
    if s.len() > 0 && is_space(s.last()) {
        trim_end(s.drop_last())
    } else {
        s
    }
}

/// A text without the white space around it.
pub open spec fn trim(s: Seq<char>) -> Seq<char> {
    trim_end(trim_start(s))
}

/// A text without the white space around it.
pub fn trimmed(v: &[char]) -> (r: &[char])
    ensures
        r@ == trim(v@),
        r@.len() <= v@.len(),
{
    let mut from: usize = 0;
    assert(v@.skip(0) =~= v@);
    while from < v.len() && space(v[from])
        invariant
            from <= v@.len(),
            trim_start(v@.skip(from as int)) == trim_start(v@),
        decreases v@.len() - from,
    {
        assert(v@.skip(from as int).drop_first() =~= v@.skip(from + 1));
        from = from + 1;
    }
    let ghost rest = trim_start(v@);
    assert(rest =~= v@.subrange(from as int, v@.len() as int));
    let mut to: usize = v.len();
    while to > from && space(v[to - 1])
        invariant
            from <= to <= v@.len(),
            trim_end(v@.subrange(from as int, to as int)) == trim_end(rest),
        decreases to,
    {
        let ghost cut = v@.subrange(from as int, to as int);
        assert(cut.drop_last() =~= v@.subrange(from as int, to - 1));
        to = to - 1;
    }
    slice_subrange(v, from, to)
}

/// Where `c` first stands in `s`; the length of `s` where it stands nowhere.
pub open spec fn find(s: Seq<char>, c: char) -> int
    decreases s.len(),
{
    if s.len() == 0 || s[0] == c {
        0
    } else {
        1 + find(s.drop_first(), c)
    }
}

pub proof fn lemma_find(s: Seq<char>, c: char)
    ensures
        0 <= find(s, c) <= s.len(),
        find(s, c) < s.len() ==> s[find(s, c)] == c,
        forall|i: int| 0 <= i < find(s, c) ==> s[i] != c,
    decreases s.len(),
{
    if s.len() > 0 && s[0] != c {
        lemma_find(s.drop_first(), c);
        assert forall|i: int| 0 <= i < find(s, c) implies s[i] != c by {
            if i > 0 {
                assert(s[i] == s.drop_first()[i - 1]);
            }
        }
    }
}

/// The place of the first `c`, told by what stands before it.
pub proof fn lemma_find_is(s: Seq<char>, c: char, k: int)
    requires
        0 <= k <= s.len(),
        k < s.len() ==> s[k] == c,
        forall|i: int| 0 <= i < k ==> s[i] != c,
    ensures
        find(s, c) == k,
{
    lemma_find(s, c);
    if find(s, c) < k {
        assert(s[find(s, c)] != c);
    }
}

/// Where `c` first stands in `v`; its length where it stands nowhere.
pub fn find_char(v: &[char], c: char) -> (k: usize)
    ensures
        k == find(v@, c),
        k <= v@.len(),
        k < v@.len() ==> v@[k as int] == c,
        forall|i: int| 0 <= i < k ==> v@[i] != c,
{
    let mut k: usize = 0;
    while k < v.len() && v[k] != c
        invariant
            k <= v@.len(),
            forall|i: int| 0 <= i < k ==> v@[i] != c,
        decreases v@.len() - k,
    {
        k = k + 1;
    }
    proof {
        lemma_find_is(v@, c, k as int);
    }
    k
}

/// Whether `c` stands in `v`.
pub fn has_char(v: &[char], c: char) -> (r: bool)
    ensures
        r == v@.contains(c),
{
    let k: usize = find_char(v, c);
    if k < v.len() {
        assert(v@[k as int] == c);
        true
    } else {
        assert(!v@.contains(c)) by {
            if v@.contains(c) {
                let i = choose|i: int| 0 <= i < v@.len() && v@[i] == c;
                assert(v@[i] != c);
            }
        }
        false
    }
}

/// What stands on either side of the first `c`, where there is one.
pub open spec fn split_once(s: Seq<char>, c: char) -> Option<(Seq<char>, Seq<char>)> {
    let k = find(s, c);
    if k < s.len() {
        Some((s.take(k), s.skip(k + 1)))
    } else {
        None
    }
}

/// What stands on either side of the first `c`, where there is one.
pub fn split_at_char<'a>(v: &'a [char], c: char) -> (r: Option<(&'a [char], &'a [char])>)
    ensures
        match r {
            Some((a, b)) => split_once(v@, c) == Some((a@, b@)),
            None => split_once(v@, c) is None,
        },
{
    let k: usize = find_char(v, c);
    if k < v.len() {
        let a: &[char] = slice_subrange(v, 0, k);
        let b: &[char] = slice_subrange(v, k + 1, v.len());
        assert(a@ =~= v@.take(k as int));
        assert(b@ =~= v@.skip(k + 1));
        Some((a, b))
    } else {
        None
    }
}

/// Whether `s` starts with `p`.
pub open spec fn starts_with(s: Seq<char>, p: Seq<char>) -> bool {
    p.len() <= s.len() && s.take(p.len() as int) == p
}

/// Whether `s` ends with `p`.
pub open spec fn ends_with(s: Seq<char>, p: Seq<char>) -> bool {
    p.len() <= s.len() && s.skip(s.len() - p.len()) == p
}

/// `s` without `p` at its end, where `s` ends with it.
pub open spec fn strip_suffix(s: Seq<char>, p: Seq<char>) -> Option<Seq<char>> {
    if ends_with(s, p) {
        Some(s.take(s.len() - p.len()))
    } else {
        None
    }
}

/// `s` without `p` at its start, where `s` starts with it.
pub open spec fn strip_prefix(s: Seq<char>, p: Seq<char>) -> Option<Seq<char>> {
    if starts_with(s, p) {
        Some(s.skip(p.len() as int))
    } else {
        None
    }
}

/// Whether two runs of characters are the same.
pub fn same_chars(a: &[char], b: &[char]) -> (r: bool)
    ensures
        r == (a@ == b@),
{
    if a.len() != b.len() {
        return false;
    }
    let mut i: usize = 0;
    while i < a.len()
        invariant
            i <= a@.len(),
            a@.len() == b@.len(),
            forall|j: int| 0 <= j < i ==> a@[j] == b@[j],
        decreases a@.len() - i,
    {
        if a[i] != b[i] {
            assert(a@[i as int] != b@[i as int]);
            return false;
        }
        i = i + 1;
    }
    assert(a@ =~= b@);
    true
}

/// Whether the characters spell the word.
pub fn spells(v: &[char], word: &str) -> (r: bool)
    ensures
        r == (v@ == word@),
{
    let w = chars_of(word);
    same_chars(v, w.as_slice())
}

/// `v` without `p` at its start, where `v` starts with it.
pub fn without_prefix<'a>(v: &'a [char], p: &str) -> (r: Option<&'a [char]>)
    ensures
        match r {
            Some(rest) => strip_prefix(v@, p@) == Some(rest@),
            None => strip_prefix(v@, p@) is None,
        },
{
    let w = chars_of(p);
    if w.len() > v.len() {
        return None;
    }
    let head: &[char] = slice_subrange(v, 0, w.len());
    assert(head@ =~= v@.take(p@.len() as int));
    if same_chars(head, w.as_slice()) {
        let rest: &[char] = slice_subrange(v, w.len(), v.len());
        assert(rest@ =~= v@.skip(p@.len() as int));
        Some(rest)
    } else {
        None
    }
}

/// `v` without `p` at its end, where `v` ends with it.
pub fn without_suffix<'a>(v: &'a [char], p: &str) -> (r: Option<&'a [char]>)
    ensures
        match r {
            Some(rest) => strip_suffix(v@, p@) == Some(rest@),
            None => strip_suffix(v@, p@) is None,
        },
{
    let w = chars_of(p);
    if w.len() > v.len() {
        return None;
    }
    let k: usize = v.len() - w.len();
    let end: &[char] = slice_subrange(v, k, v.len());
    assert(end@ =~= v@.skip(k as int));
    if same_chars(end, w.as_slice()) {
        let rest: &[char] = slice_subrange(v, 0, k);
        assert(rest@ =~= v@.take(k as int));
        Some(rest)
    } else {
        None
    }
}

/// The texts between the occurrences of `c`.
pub open spec fn split_on(s: Seq<char>, c: char) -> Seq<Seq<char>>
    decreases s.len(),
{
    let k = find(s, c);
    if 0 <= k < s.len() {
        seq![s.take(k)] + split_on(s.skip(k + 1), c)
    } else {
        seq![s]
    }
}

/// A line without the carriage return at its end.
pub open spec fn without_cr(s: Seq<char>) -> Seq<char> {
    if s.len() > 0 && s.last() == '\r' {
        s.drop_last()
    } else {
        s
    }
}

/// The lines of a text: what ends at a line feed, with its carriage return
/// set aside, and what is left after the last one if anything is.
pub open spec fn lines(s: Seq<char>) -> Seq<Seq<char>>
    decreases s.len(),
{
    let k = find(s, '\n');
    if s.len() == 0 {
        Seq::empty()
    } else if 0 <= k < s.len() {
        seq![without_cr(s.take(k))] + lines(s.skip(k + 1))
    } else {
        seq![s]
    }
}

/// The words of a text: the longest runs without white space.
pub open spec fn words(s: Seq<char>) -> Seq<Seq<char>>
    decreases s.len(),
{
    let t = trim_start(s);
    if t.len() == 0 || t.len() > s.len() {
        Seq::empty()
    } else {
        let k = word_end(t);
        if k <= 0 || k > t.len() {
            Seq::empty()
        } else {
            seq![t.take(k)] + words(t.skip(k))
        }
    }
}

/// Where the first word of a text ends.
pub open spec fn word_end(s: Seq<char>) -> int
    decreases s.len(),
{
    if s.len() == 0 || is_space(s[0]) {
        0
    } else {
        1 + word_end(s.drop_first())
    }
}

/// The parts with `sep` between them.
pub open spec fn joined(parts: Seq<Seq<char>>, sep: Seq<char>) -> Seq<char>
    decreases parts.len(),
{
    if parts.len() == 0 {
        Seq::empty()
    } else if parts.len() == 1 {
        parts[0]
    } else {
        joined(parts.drop_last(), sep) + sep + parts.last()
    }
}

/// What a list of strings says.
pub open spec fn texts(v: Seq<String>) -> Seq<Seq<char>> {
    Seq::new(v.len(), |i: int| v[i]@)
}

/// The strings with `sep` between them.
pub fn join(parts: &Vec<String>, sep: &str) -> (r: String)
    ensures
        r@ == joined(texts(parts@), sep@),
{
    let ghost all = texts(parts@);
    let mut r = String::new();
    let mut i: usize = 0;
    assert(r@ =~= joined(all.take(0), sep@));
    while i < parts.len()
        invariant
            i <= parts@.len(),
            all == texts(parts@),
            r@ == joined(all.take(i as int), sep@),
        decreases parts@.len() - i,
    {
        if i > 0 {
            r.append(sep);
        }
        r.append(parts[i].as_str());
        proof {
            let next = all.take(i + 1);
            assert(next.drop_last() =~= all.take(i as int));
            assert(next.last() == all[i as int]);
            if i == 0 {
                assert(r@ =~= next[0]);
            } else {
                assert(r@ =~= joined(next, sep@));
            }
        }
        i = i + 1;
    }
    assert(all.take(i as int) =~= all);
    r
}

// ------------------------------------------------------------------ numbers

/// The character of a decimal digit.
pub open spec fn digit_char(d: nat) -> char {
    ('0' as u32 + d) as char
}

/// A number in decimal.
pub open spec fn decimal(n: nat) -> Seq<char>
    decreases n,
{
    if n < 10 {
        seq![digit_char(n)]
    } else {
        decimal(n / 10).push(digit_char(n % 10))
    }
}

fn digit(d: u64) -> (c: char)
    requires
        d < 10,
    ensures
        c == digit_char(d as nat),
{
    (48u8 + d as u8) as char
}

/// A number in decimal.
pub fn number_text(n: u64) -> (s: String)
    ensures
        s@ == decimal(n as nat),
    decreases n,
{
    if n < 10 {
        let mut s = String::new();
        s.push(digit(n));
        assert(s@ =~= seq![digit_char(n as nat)]);
        s
    } else {
        let mut s = number_text(n / 10);
        s.push(digit(n % 10));
        s
    }
}

pub open spec fn is_digit(c: char) -> bool {
    '0' <= c && c <= '9'
}

pub open spec fn all_digits(s: Seq<char>) -> bool {
    forall|i: int| 0 <= i < s.len() ==> is_digit(#[trigger] s[i])
}

/// The number that a run of decimal digits spells.
pub open spec fn digits_value(s: Seq<char>) -> nat
    decreases s.len(),
{
    if s.len() == 0 {
        0
    } else {
        digits_value(s.drop_last()) * 10 + (s.last() as u32 - '0' as u32) as nat
    }
}

/// A decimal number of at most `max`: digits, with a plus sign before them or
/// without.
pub open spec fn parsed(s: Seq<char>, max: nat) -> Option<nat> {
    let d = if s.len() > 0 && s[0] == '+' {
        s.drop_first()
    } else {
        s
    };
    if d.len() > 0 && all_digits(d) && digits_value(d) <= max {
        Some(digits_value(d))
    } else {
        None
    }
}

pub proof fn lemma_digits_value_mono(s: Seq<char>, k: int)
    requires
        0 <= k <= s.len(),
        all_digits(s),
    ensures
        digits_value(s.take(k)) <= digits_value(s),
    decreases s.len(),
{
    if k < s.len() {
        lemma_digits_value_mono(s.drop_last(), k);
        assert(s.drop_last().take(k) =~= s.take(k));
    } else {
        assert(s.take(k) =~= s);
    }
}

/// A decimal number of at most `max`.
fn parse_up_to(v: &[char], max: u64) -> (r: Option<u64>)
    ensures
        match r {
            Some(n) => parsed(v@, max as nat) == Some(n as nat),
            None => parsed(v@, max as nat) is None,
        },
{
    let from: usize = if v.len() > 0 && v[0] == '+' {
        1
    } else {
        0
    };
    let ghost d = if v@.len() > 0 && v@[0] == '+' {
        v@.drop_first()
    } else {
        v@
    };
    assert(d =~= v@.skip(from as int));
    if from == v.len() {
        return None;
    }
    let mut n: u64 = 0;
    let mut i: usize = from;
    assert(d.take(0) =~= Seq::empty());
    while i < v.len()
        invariant
            from <= i <= v@.len(),
            d == v@.skip(from as int),
            d == (if v@.len() > 0 && v@[0] == '+' {
                v@.drop_first()
            } else {
                v@
            }),
            forall|j: int| 0 <= j < i - from ==> is_digit(#[trigger] d[j]),
            n == digits_value(d.take(i - from)),
            n <= max,
        decreases v@.len() - i,
    {
        let c: char = v[i];
        let ghost k = i - from;
        assert(d[k] == c);
        if !('0' <= c && c <= '9') {
            assert(!is_digit(d[k]));
            return None;
        }
        let x: u64 = c as u64 - '0' as u64;
        proof {
            assert(d.take(k + 1).drop_last() =~= d.take(k));
            assert(d.take(k + 1).last() == c);
            assert(digits_value(d.take(k + 1)) == n * 10 + x);
        }
        if n > max / 10 || x > max - n * 10 {
            proof {
                if all_digits(d) {
                    lemma_digits_value_mono(d, k + 1);
                }
            }
            return None;
        }
        n = n * 10 + x;
        i = i + 1;
    }
    assert(d.take(i - from) =~= d);
    Some(n)
}

/// An unsigned 64-bit number in decimal.
pub fn parse_u64(v: &[char]) -> (r: Option<u64>)
    ensures
        match r {
            Some(n) => parsed(v@, u64::MAX as nat) == Some(n as nat),
            None => parsed(v@, u64::MAX as nat) is None,
        },
{
    parse_up_to(v, u64::MAX)
}

/// An unsigned 32-bit number in decimal.
pub fn parse_u32(v: &[char]) -> (r: Option<u32>)
    ensures
        match r {
            Some(n) => parsed(v@, u32::MAX as nat) == Some(n as nat),
            None => parsed(v@, u32::MAX as nat) is None,
        },
{
    match parse_up_to(v, u32::MAX as u64) {
        Some(n) => Some(n as u32),
        None => None,
    }
}

/// Decimal text spells the number it was made from.
pub proof fn lemma_decimal(n: nat)
    ensures
        decimal(n).len() > 0,
        all_digits(decimal(n)),
        digits_value(decimal(n)) == n,
    decreases n,
{
    if n < 10 {
        assert(decimal(n).drop_last() =~= Seq::empty());
        assert(digits_value(Seq::empty()) == 0);
        assert(decimal(n).last() as u32 == '0' as u32 + n);
    } else {
        assert(decimal(n).last() as u32 == '0' as u32 + n % 10);
        lemma_decimal(n / 10);
        assert(decimal(n).drop_last() =~= decimal(n / 10));
    }
}

/// Writing a number and reading it back gives the number.
pub proof fn lemma_decimal_round_trip(n: nat, max: nat)
    requires
        n <= max,
    ensures
        parsed(decimal(n), max) == Some(n),
{
    lemma_decimal(n);
    assert(is_digit(decimal(n)[0]));
}

// ------------------------------------------------------- lines, words, parts

/// What a list of runs of characters says.
pub open spec fn char_texts(v: Seq<Vec<char>>) -> Seq<Seq<char>> {
    Seq::new(v.len(), |i: int| v[i]@)
}

proof fn lemma_append_one(done: Seq<Seq<char>>, x: Seq<char>, rest: Seq<Seq<char>>)
    ensures
        done + (seq![x] + rest) == done.push(x) + rest,
{
    assert(done + (seq![x] + rest) =~= done.push(x) + rest);
}

proof fn lemma_char_texts_push(v: Seq<Vec<char>>, x: Vec<char>)
    ensures
        char_texts(v.push(x)) == char_texts(v).push(x@),
{
    assert(char_texts(v.push(x)) =~= char_texts(v).push(x@));
}

fn copied(v: &[char]) -> (r: Vec<char>)
    ensures
        r@ == v@,
{
    slice_to_vec(v)
}

/// The lines of a text.
pub fn lines_of(v: &[char]) -> (r: Vec<Vec<char>>)
    ensures
        char_texts(r@) == lines(v@),
        r@.len() <= v@.len(),
{
    let mut out: Vec<Vec<char>> = Vec::new();
    let mut at: usize = 0;
    assert(v@.skip(0) =~= v@);
    assert(char_texts(out@) + lines(v@.skip(0)) =~= lines(v@));
    while at < v.len()
        invariant
            at <= v@.len(),
            char_texts(out@) + lines(v@.skip(at as int)) == lines(v@),
            out@.len() <= at,
        decreases v@.len() - at,
    {
        let rest: &[char] = slice_subrange(v, at, v.len());
        assert(rest@ =~= v@.skip(at as int));
        let k: usize = find_char(rest, '\n');
        let ghost done = char_texts(out@);
        if k < rest.len() {
            let end: usize = if k > 0 && rest[k - 1] == '\r' {
                k - 1
            } else {
                k
            };
            let line = copied(slice_subrange(rest, 0, end));
            assert(line@ =~= without_cr(rest@.take(k as int)));
            proof {
                lemma_append_one(done, line@, lines(rest@.skip(k + 1)));
                lemma_char_texts_push(out@, line);
                assert(rest@.skip(k + 1) =~= v@.skip(at + k + 1));
            }
            out.push(line);
            at = at + k + 1;
        } else {
            let line = copied(rest);
            proof {
                lemma_append_one(done, line@, Seq::empty());
                lemma_char_texts_push(out@, line);
                assert(lines(rest@) =~= seq![line@] + Seq::<Seq<char>>::empty());
                assert(lines(v@.skip(v@.len() as int)) =~= Seq::<Seq<char>>::empty());
            }
            out.push(line);
            at = v.len();
        }
    }
    assert(char_texts(out@) + lines(v@.skip(at as int)) =~= char_texts(out@));
    out
}

/// The texts between the occurrences of `c`.
pub fn parts_of(v: &[char], c: char) -> (r: Vec<Vec<char>>)
    ensures
        char_texts(r@) == split_on(v@, c),
{
    let mut out: Vec<Vec<char>> = Vec::new();
    let mut at: usize = 0;
    assert(v@.skip(0) =~= v@);
    assert(char_texts(out@) + split_on(v@.skip(0), c) =~= split_on(v@, c));
    loop
        invariant
            at <= v@.len(),
            char_texts(out@) + split_on(v@.skip(at as int), c) == split_on(v@, c),
        decreases v@.len() - at,
    {
        let rest: &[char] = slice_subrange(v, at, v.len());
        assert(rest@ =~= v@.skip(at as int));
        let k: usize = find_char(rest, c);
        let ghost done = char_texts(out@);
        if k < rest.len() {
            let part = copied(slice_subrange(rest, 0, k));
            assert(part@ =~= rest@.take(k as int));
            proof {
                lemma_append_one(done, part@, split_on(rest@.skip(k + 1), c));
                lemma_char_texts_push(out@, part);
                assert(rest@.skip(k + 1) =~= v@.skip(at + k + 1));
            }
            out.push(part);
            at = at + k + 1;
        } else {
            let part = copied(rest);
            proof {
                lemma_char_texts_push(out@, part);
                assert(done + seq![part@] =~= done.push(part@));
            }
            out.push(part);
            return out;
        }
    }
}

proof fn lemma_word_end(s: Seq<char>)
    ensures
        0 <= word_end(s) <= s.len(),
        s.len() > 0 && !is_space(s[0]) ==> word_end(s) > 0,
        forall|i: int| 0 <= i < word_end(s) ==> !is_space(#[trigger] s[i]),
        word_end(s) < s.len() ==> is_space(s[word_end(s)]),
    decreases s.len(),
{
    if s.len() > 0 && !is_space(s[0]) {
        let t = s.drop_first();
        lemma_word_end(t);
        assert forall|i: int| 0 <= i < word_end(s) implies !is_space(#[trigger] s[i]) by {
            if i > 0 {
                assert(s[i] == t[i - 1]);
            }
        }
    }
}

proof fn lemma_trim_start(s: Seq<char>)
    ensures
        trim_start(s).len() <= s.len(),
        trim_start(s).len() > 0 ==> !is_space(trim_start(s)[0]),
    decreases s.len(),
{
    if s.len() > 0 && is_space(s[0]) {
        lemma_trim_start(s.drop_first());
    }
}

proof fn lemma_words_skip_space(s: Seq<char>)
    requires
        s.len() > 0,
        is_space(s[0]),
    ensures
        words(s) == words(s.drop_first()),
{
    lemma_trim_start(s.drop_first());
    let t = trim_start(s);
    assert(t == trim_start(s.drop_first()));
}

/// The words of a text.
pub fn words_of(v: &[char]) -> (r: Vec<String>)
    ensures
        texts(r@) == words(v@),
{
    let mut out: Vec<String> = Vec::new();
    let mut at: usize = 0;
    assert(v@.skip(0) =~= v@);
    assert(texts(out@) + words(v@.skip(0)) =~= words(v@));
    while at < v.len()
        invariant
            at <= v@.len(),
            texts(out@) + words(v@.skip(at as int)) == words(v@),
        decreases v@.len() - at,
    {
        let ghost rest = v@.skip(at as int);
        if space(v[at]) {
            proof {
                lemma_words_skip_space(rest);
                assert(rest.drop_first() =~= v@.skip(at + 1));
            }
            at = at + 1;
        } else {
            let mut to: usize = at;
            while to < v.len() && !space(v[to])
                invariant
                    at <= to <= v@.len(),
                    forall|i: int| at <= i < to ==> !is_space(#[trigger] v@[i]),
                decreases v@.len() - to,
            {
                to = to + 1;
            }
            let word = text_of(slice_subrange(v, at, to));
            proof {
                lemma_word_end(rest);
                let k = word_end(rest);
                assert(trim_start(rest) == rest);
                if k < to - at {
                    assert(is_space(rest[k]) && rest[k] == v@[at + k]);
                }
                if to - at < k {
                    assert(!is_space(rest[to - at]) && rest[to - at] == v@[to as int]);
                }
                assert(word@ =~= rest.take(k));
                assert(rest.skip(k) =~= v@.skip(to as int));
                lemma_append_one(texts(out@), word@, words(rest.skip(k)));
                assert(texts(out@.push(word)) =~= texts(out@).push(word@));
            }
            out.push(word);
            at = to;
        }
    }
    assert(texts(out@) + words(v@.skip(at as int)) =~= texts(out@));
    out
}

// ------------------------------------------------------------- hexadecimal

/// The lowercase hexadecimal digit worth `d`.
pub open spec fn hex_char(d: nat) -> char {
    if d < 10 {
        ('0' as u32 + d) as char
    } else {
        ('a' as u32 + (d - 10)) as char
    }
}

/// The lowercase hexadecimal digit worth `d`.
pub fn hex_digit(d: u8) -> (c: char)
    requires
        d < 16,
    ensures
        c == hex_char(d as nat),
{
    if d < 10 {
        (48u8 + d) as char
    } else {
        (97u8 + (d - 10)) as char
    }
}

/// A number in hexadecimal.
pub open spec fn hex_number(n: nat) -> Seq<char>
    decreases n,
{
    if n < 16 {
        seq![hex_char(n)]
    } else {
        hex_number(n / 16).push(hex_char(n % 16))
    }
}

/// A number in hexadecimal, in `width` digits, high-order zeros written out.
pub open spec fn hex_padded(n: nat, width: nat) -> Seq<char>
    decreases width,
{
    if width == 0 {
        Seq::empty()
    } else {
        hex_padded(n / 16, (width - 1) as nat).push(hex_char(n % 16))
    }
}

/// A number in hexadecimal.
pub fn hex_number_text(n: u64) -> (s: String)
    ensures
        s@ == hex_number(n as nat),
    decreases n,
{
    if n < 16 {
        let mut s = String::new();
        s.push(hex_digit(n as u8));
        assert(s@ =~= seq![hex_char(n as nat)]);
        s
    } else {
        let mut s = hex_number_text(n / 16);
        s.push(hex_digit((n % 16) as u8));
        s
    }
}

/// A number in hexadecimal, in `width` digits.
pub fn hex_padded_text(n: u64, width: usize) -> (s: String)
    ensures
        s@ == hex_padded(n as nat, width as nat),
    decreases width,
{
    if width == 0 {
        String::new()
    } else {
        let mut s = hex_padded_text(n / 16, width - 1);
        s.push(hex_digit((n % 16) as u8));
        s
    }
}

/// A string of the given text.
pub fn text(s: &str) -> (r: String)
    ensures
        r@ == s@,
{
    String::from_str(s)
}

/// A copy of a list of strings.
pub fn copy_texts(v: &Vec<String>) -> (r: Vec<String>)
    ensures
        texts(r@) == texts(v@),
{
    let mut r: Vec<String> = Vec::new();
    let mut i: usize = 0;
    while i < v.len()
        invariant
            i <= v@.len(),
            r@.len() == i,
            forall|j: int| 0 <= j < i ==> #[trigger] r@[j]@ == v@[j]@,
        decreases v@.len() - i,
    {
        r.push(text(v[i].as_str()));
        i = i + 1;
    }
    assert(texts(r@) =~= texts(v@));
    r
}

} // verus!
