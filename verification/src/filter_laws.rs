//! What a chunk's tokens and the filter over them come to.

use crate::bytes::{le, le_at};
use crate::frame::len32;
use crate::grain::{
    bit_position, bit_set, filter_bits, filters_from, first_record, fnv1a, grain_header,
    header_understood, is_filter_of, may_hold, next_record, page_record, skipped, some_sets,
    takes_page, whole_record,
};
use crate::order::{before, lemma_before_irreflexive, the_first_difference_decides};
use crate::tokens::{as_text, is_run, is_token, token_byte, tokens_ordered};
use vstd::prelude::*;

verus! {

/// Whether bytes are ASCII letters and digits alone.
pub open spec fn alphanumeric(t: Seq<u8>) -> bool {
    forall|i: int| 0 <= i < t.len() ==> is_alphanumeric(#[trigger] t[i])
}

/// Whether a byte is an ASCII letter or digit.
pub open spec fn is_alphanumeric(b: u8) -> bool {
    ('0' as u32 <= b as u32 <= '9' as u32) || ('A' as u32 <= b as u32 <= 'Z' as u32) || ('a' as u32
        <= b as u32 <= 'z' as u32)
}

/// A token is a run of 3 to 64 letters and digits that nothing of the kind goes
/// before and nothing of the kind follows, wherever in the data it stands; and
/// every such run is one.
pub proof fn a_token_stands_apart(data: Seq<u8>, t: Seq<u8>)
    ensures
        is_token(data, t) <==> 3 <= t.len() <= 64 && alphanumeric(t) && exists|
            a: Seq<u8>,
            b: Seq<u8>,
        |
            data == #[trigger] (a + t + b) && (a.len() > 0 ==> !is_alphanumeric(a.last())) && (
            b.len() > 0 ==> !is_alphanumeric(b[0])),
{
    assert(forall|b: u8| token_byte(b) == #[trigger] is_alphanumeric(b));
    if is_token(data, t) {
        let s = choose|s: int|
            #[trigger] is_run(data, s, s + t.len()) && data.subrange(s, s + t.len()) == t;
        let a = data.take(s);
        let b = data.skip(s + t.len());
        assert(data =~= a + t + b) by {
            assert forall|i: int| 0 <= i < data.len() implies data[i] == (a + t + b)[i] by {
                if s <= i < s + t.len() {
                    assert(data.subrange(s, s + t.len())[i - s] == t[i - s]);
                }
            }
        }
        assert forall|i: int| 0 <= i < t.len() implies is_alphanumeric(#[trigger] t[i]) by {
            assert(t[i] == data[s + i]);
            assert(token_byte(data[s + i]));
        }
    }
    if 3 <= t.len() <= 64 && alphanumeric(t) && exists|a: Seq<u8>, b: Seq<u8>|
        data == #[trigger] (a + t + b) && (a.len() > 0 ==> !is_alphanumeric(a.last())) && (b.len()
            > 0 ==> !is_alphanumeric(b[0])) {
        let (a, b) = choose|a: Seq<u8>, b: Seq<u8>|
            data == #[trigger] (a + t + b) && (a.len() > 0 ==> !is_alphanumeric(a.last())) && (
            b.len() > 0 ==> !is_alphanumeric(b[0]));
        let s = a.len() as int;
        assert forall|i: int| s <= i < s + t.len() implies token_byte(#[trigger] data[i]) by {
            assert(data[i] == t[i - s]);
            assert(is_alphanumeric(t[i - s]));
        }
        if s > 0 {
            assert(data[s - 1] == a.last());
        }
        if s + t.len() < data.len() {
            assert(data[s + t.len()] == b[0]);
        }
        assert(is_run(data, s, s + t.len()));
        assert(data.subrange(s, s + t.len()) =~= t);
    }
}

/// The hash is taken byte by byte: of nothing it is the start, and a byte more
/// is mixed in and multiplied by the prime.
pub proof fn the_hash_takes_one_byte_after_another(seed: u64, data: Seq<u8>, b: u8)
    ensures
        fnv1a(0, Seq::empty()) == 0xcbf29ce484222325,
        fnv1a(seed, Seq::empty()) == 0xcbf29ce484222325u64 ^ ((seed * 0x100000001b3)
            % 0x1_0000_0000_0000_0000) as u64,
        fnv1a(seed, data.push(b)) == ((fnv1a(seed, data) ^ (b as u64)) * 0x100000001b3)
            % 0x1_0000_0000_0000_0000,
{
    assert(data.push(b).drop_last() =~= data);
    assert(0xcbf29ce484222325u64 ^ 0u64 == 0xcbf29ce484222325u64) by (bit_vector);
}

/// A filter has room for ten bits a token, rounded up to whole words, and never
/// none.
pub proof fn a_filter_has_ten_bits_a_token(n: nat)
    ensures
        filter_bits(n) % 64 == 0,
        filter_bits(n) >= 64,
        filter_bits(n) >= 10 * n,
        n > 0 ==> filter_bits(n) < 10 * n + 64,
        n == 0 ==> filter_bits(n) == 64,
{
}

/// The bits of a token are seven steps of one odd width from where its hash
/// points, wrapped into the filter.
pub proof fn the_bits_of_a_token_are_even_steps_apart(token: Seq<u8>, m: nat, i: nat)
    requires
        m > 0,
        i < 7,
    ensures
        bit_position(token, m, 0) == fnv1a(0, token) as nat % m,
        bit_position(token, m, i) < m,
        bit_position(token, m, i) == ((fnv1a(0, token) + i * (fnv1a(
            0x9e3779b97f4a7c15,
            token,
        ) | 1)) % 0x1_0000_0000_0000_0000) % (m as int),
{
    let h1 = fnv1a(0, token);
    let h2 = fnv1a(0x9e3779b97f4a7c15, token) | 1;
    let big = 0x1_0000_0000_0000_0000int;
    let x = i as int * h2 as int;
    let y = (i as u64).wrapping_mul(h2);
    assert(y as int == x % big);
    assert(h1.wrapping_add(y) as int == (h1 + y) % big);
    assert((h1 + x % big) % big == (h1 + x) % big);
    assert((0u64).wrapping_mul(h2) == 0) by {
        assert(0 * h2 as int == 0) by (nonlinear_arith);
    }
    assert(h1.wrapping_add(0) == h1);
}

/// Bits are counted from the lowest of each byte on: the bit is there where the
/// byte, halved as often as bits go before it in the byte, is odd.
pub proof fn bits_are_counted_from_the_lowest(filter: Seq<u8>, p: nat)
    ensures
        bit_set(filter, p) <==> (filter[(p / 8) as int] >> ((p % 8) as u8)) % 2 == 1,
{
    let b = filter[(p / 8) as int];
    let k = (p % 8) as u8;
    assert(k < 8);
    assert((b & (1u8 << k) != 0) <==> (b >> k) % 2 == 1) by (bit_vector)
        requires
            k < 8,
    ;
}

/// A filter holds a token only where all of its seven bits are set: one that is
/// missing says that the token is not there. A filter that is no filter rules
/// nothing out.
pub proof fn one_missing_bit_rules_a_token_out(filter: Seq<u8>, token: Seq<u8>, i: nat)
    requires
        i < 7,
    ensures
        filter.len() == 0 ==> may_hold(filter, token),
        filter.len() > 0 && !bit_set(filter, bit_position(token, filter.len() * 8, i))
            ==> !may_hold(filter, token),
{
}

/// In the filter of a list of tokens every bit that is set is a bit of one of
/// them.
pub proof fn a_filter_sets_no_bit_without_a_token(
    filter: Seq<u8>,
    tokens: Seq<Seq<u8>>,
    p: nat,
)
    requires
        is_filter_of(filter, tokens),
        p < filter.len() * 8,
        bit_set(filter, p),
    ensures
        exists|t: int, i: nat|
            0 <= t < tokens.len() && i < 7 && #[trigger] bit_position(
                tokens[t],
                filter.len() * 8,
                i,
            ) == p,
{
    assert(some_sets(tokens, filter_bits(tokens.len()), p));
}

/// Numbers are written with their lowest byte first.
pub proof fn the_lowest_byte_comes_first(v: nat)
    ensures
        le(v, 2) == seq![(v % 256) as u8, (v / 256 % 256) as u8],
        le(v, 4) == seq![
            (v % 256) as u8,
            (v / 256 % 256) as u8,
            (v / 65536 % 256) as u8,
            (v / 16777216 % 256) as u8,
        ],
        le(v, 8) == le(v, 4) + le(v / 4294967296, 4),
{
    reveal_with_fuel(le, 9);
    assert(le(v, 2) =~= seq![(v % 256) as u8, (v / 256 % 256) as u8]);
    assert(v / 256 / 256 == v / 65536);
    assert(v / 256 / 256 / 256 == v / 16777216);
    assert(v / 256 / 256 / 256 / 256 == v / 4294967296);
    assert(le(v, 4) =~= seq![
        (v % 256) as u8,
        (v / 256 % 256) as u8,
        (v / 65536 % 256) as u8,
        (v / 16777216 % 256) as u8,
    ]);
    assert(le(v, 8) =~= le(v, 4) + le(v / 4294967296, 4));
}

/// A page is preceded by its length, in four bytes, the lowest first.
pub proof fn a_page_is_preceded_by_its_length(page: Seq<u8>)
    requires
        page.len() < 0x1_0000_0000,
    ensures
        page_record(page).len() == 4 + page.len(),
        page_record(page).skip(4) == page,
        page_record(page).take(4) == seq![
            (page.len() % 256) as u8,
            (page.len() / 256 % 256) as u8,
            (page.len() / 65536 % 256) as u8,
            (page.len() / 16777216 % 256) as u8,
        ],
{
    the_lowest_byte_comes_first(page.len());
    assert(len32(page.len()) == page.len());
    assert(page_record(page).skip(4) =~= page);
    assert(page_record(page).take(4) =~= le(page.len(), 4));
}

/// A header names its format, says how tokens and filters are made, and where
/// the records start; it is understood, and its records are found there.
pub proof fn a_header_says_where_its_records_start(first_rec: nat, rest: Seq<u8>)
    requires
        16 <= first_rec <= 16 + rest.len(),
        first_rec < 0x1_0000_0000,
    ensures
        grain_header(first_rec).len() == 16,
        grain_header(first_rec).take(7) == seq![0x47u8, 0x52, 0x41, 0x49, 0x4e, 0x30, 0x30],
        grain_header(first_rec)[7] == (if first_rec == 16 {
            0x31u8
        } else {
            0x32u8
        }),
        grain_header(first_rec).subrange(8, 12) == seq![0u8, 3, 64, 7],
        header_understood(grain_header(first_rec) + rest),
        first_record(grain_header(first_rec) + rest) == Some(first_rec as int),
{
    let h = grain_header(first_rec);
    let b = h + rest;
    crate::bytes::lemma_pow256();
    the_lowest_byte_comes_first(0);
    the_lowest_byte_comes_first(first_rec);
    assert(h.len() == 16);
    assert(h.take(7) =~= seq![0x47u8, 0x52, 0x41, 0x49, 0x4e, 0x30, 0x30]);
    assert(h.subrange(8, 12) =~= seq![0u8, 3, 64, 7]);
    assert(b.subrange(8, 12) =~= h.subrange(8, 12));
    assert(b.subrange(12, 16) =~= h.subrange(12, 16));
    assert(crate::grain::GRAIN_MAGIC@[7] != crate::grain::GRAIN_MAGIC_V2@[7]);
    if first_rec == 16 {
        assert(b.subrange(0, 8) =~= crate::grain::GRAIN_MAGIC@);
    } else {
        assert(b.subrange(0, 8) =~= crate::grain::GRAIN_MAGIC_V2@);
        assert(h.subrange(12, 16) =~= le(first_rec, 4));
        crate::bytes::lemma_le_in_middle(h.take(12), first_rec, 4, rest);
        assert(h.take(12) + le(first_rec, 4) + rest =~= b);
    }
}

/// The tokens of a chunk are listed each once, in the order of their bytes: of
/// two that differ, the one with the smaller byte where they first do, and a
/// token before what it begins.
pub proof fn tokens_are_listed_in_order(v: Seq<Seq<u8>>, i: int, j: int)
    requires
        tokens_ordered(v),
        0 <= i < j < v.len(),
    ensures
        v[i] != v[j],
        exists|k: int|
            0 <= k <= v[i].len() && k < v[j].len() && #[trigger] v[i].take(k) == v[j].take(k) && (k
                == v[i].len() || v[i][k] < v[j][k]),
{
    let a = as_text(v[i]);
    let b = as_text(v[j]);
    assert(before(a, b));
    the_first_difference_decides(a, b);
    let k = choose|k: int|
        0 <= k <= a.len() && k < b.len() && #[trigger] a.take(k) == b.take(k) && (k == a.len()
            || a[k] < b[k]);
    assert forall|n: int| 0 <= n < k implies v[i][n] == v[j][n] by {
        assert(a.take(k)[n] == b.take(k)[n]);
        assert(a[n] == v[i][n] as char && b[n] == v[j][n] as char);
    }
    assert(v[i].take(k) =~= v[j].take(k));
    if k < a.len() {
        assert(a[k] == v[i][k] as char && b[k] == v[j][k] as char);
    }
    lemma_before_irreflexive(a);
}

/// A grain has records exactly where it is one: its first bytes name one of the
/// two formats, and the newer one says a place for them behind its header and
/// within the file.
pub proof fn a_grain_is_told_by_its_header(b: Seq<u8>)
    ensures
        first_record(b) is Some <==> b.len() >= 16 && (b.subrange(0, 8)
            == crate::grain::GRAIN_MAGIC@ || (b.subrange(0, 8) == crate::grain::GRAIN_MAGIC_V2@
            && 16 <= le_at(b, 12, 4) <= b.len())),
        first_record(b) is Some && b.subrange(0, 8) == crate::grain::GRAIN_MAGIC@ ==> first_record(
            b,
        ) == Some(16int),
        first_record(b) is Some && b.subrange(0, 8) == crate::grain::GRAIN_MAGIC_V2@
            ==> first_record(b) == Some(le_at(b, 12, 4) as int),
{
    assert(crate::grain::GRAIN_MAGIC@[7] != crate::grain::GRAIN_MAGIC_V2@[7]);
}

/// As many records can be skipped as there are, and no more.
pub proof fn as_many_can_be_skipped_as_there_are(b: Seq<u8>, off: int, n: nat)
    requires
        off >= 0,
    ensures
        skipped(b, off, n) is Some <==> n <= filters_from(b, off).len(),
        skipped(b, off, n) is Some ==> skipped(b, off, n)->Some_0 >= off,
        skipped(b, off, 0) == Some(off),
    decreases n,
{
    if n > 0 && whole_record(b, off) {
        as_many_can_be_skipped_as_there_are(b, next_record(b, off), (n - 1) as nat);
    }
}

/// A page is taken where it is the next chunk's and its length can be written.
pub proof fn a_page_is_taken_where_it_is_the_next(
    existing: Option<Seq<u8>>,
    chunk: nat,
    page: Seq<u8>,
)
    ensures
        existing is None ==> (takes_page(existing, chunk, page) <==> chunk == 0 && page.len()
            < 0x1_0000_0000),
        existing is Some ==> (takes_page(existing, chunk, page) <==> first_record(
            existing->Some_0,
        ) is Some && filters_from(existing->Some_0, first_record(existing->Some_0)->Some_0).len()
            == chunk && page.len() < 0x1_0000_0000),
{
}

} // verus!
