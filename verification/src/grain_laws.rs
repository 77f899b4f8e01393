//! What holds of the token index as a whole.

use crate::bytes::{le, lemma_le_in_middle, lemma_le_len, lemma_pow256};
use crate::frame::len32;
use crate::grain::{
    filters_from, filters_of, filters_there, first_record, grain_header, is_filter_of, is_page_of,
    may_hold, next_record, no_false_negatives, page_record, records_end, skipped, takes_page,
    whole_part, whole_record, Page, GRAIN_MAGIC, GRAIN_MAGIC_V2,
};
use crate::tokens::{is_token, tokens_ordered};
use vstd::prelude::*;

verus! {

/// An indexed chunk is never missed: whatever token its content holds, its
/// page may hold it.
pub proof fn an_indexed_chunk_is_never_missed(p: Page, data: Seq<u8>, t: Seq<u8>)
    requires
        is_page_of(p, data),
        is_token(data, t),
    ensures
        may_hold(p.record@.skip(4), t),
{
    let (tokens, filter) = choose|tokens: Seq<Seq<u8>>, filter: Seq<u8>|
        {
            &&& #[trigger] tokens_ordered(tokens)
            &&& forall|t: Seq<u8>| tokens.contains(t) <==> is_token(data, t)
            &&& #[trigger] is_filter_of(filter, tokens)
            &&& p.record@ == page_record(filter)
            &&& p.tokens == tokens.len()
        };
    assert(tokens.contains(t));
    let i = choose|i: int| 0 <= i < tokens.len() && tokens[i] == t;
    no_false_negatives(filter, tokens, i);
    lemma_le_len(len32(filter.len()), 4);
    assert(p.record@.skip(4) =~= filter);
}

/// What stands from `off` on decides the records from `off` on.
proof fn lemma_shift(a: Seq<u8>, s: Seq<u8>, off: int)
    requires
        0 <= off,
    ensures
        filters_from(a + s, a.len() + off) == filters_from(s, off),
        records_end(a + s, a.len() + off) == a.len() + records_end(s, off),
        whole_record(a + s, a.len() + off) == whole_record(s, off),
    decreases s.len() - off,
{
    let b = a + s;
    let at = a.len() + off;
    if off + 4 <= s.len() {
        assert(b.subrange(at, at + 4) =~= s.subrange(off, off + 4));
        if whole_record(s, off) {
            let n = next_record(s, off);
            assert(next_record(b, at) == a.len() + n);
            assert(b.subrange(at + 4, a.len() + n) =~= s.subrange(off + 4, n));
            lemma_shift(a, s, n);
        }
    }
}

proof fn lemma_tail_decides(b: Seq<u8>, at: int, c: Seq<u8>, to: int)
    requires
        0 <= at <= b.len(),
        0 <= to <= c.len(),
        b.skip(at) == c.skip(to),
    ensures
        filters_from(b, at) == filters_from(c, to),
{
    lemma_shift(b.take(at), b.skip(at), 0);
    lemma_shift(c.take(to), c.skip(to), 0);
    assert(b.take(at) + b.skip(at) =~= b);
    assert(c.take(to) + c.skip(to) =~= c);
}

proof fn lemma_skipped_filters(b: Seq<u8>, off: int, k: nat)
    requires
        0 <= off <= b.len(),
        skipped(b, off, k) is Some,
    ensures
        off <= skipped(b, off, k)->Some_0 <= b.len(),
        filters_from(b, off).len() >= k,
        filters_from(b, skipped(b, off, k)->Some_0) == filters_from(b, off).skip(k as int),
    decreases k,
{
    if k > 0 {
        let n = next_record(b, off);
        lemma_skipped_filters(b, n, (k - 1) as nat);
        let rest = filters_from(b, n);
        let all = filters_from(b, off);
        assert(all =~= seq![b.subrange(off + 4, n)] + rest);
        assert(all.skip(k as int) =~= rest.skip(k - 1));
    } else {
        assert(filters_from(b, off).skip(0) =~= filters_from(b, off));
    }
}

proof fn lemma_fresh_header(rest: Seq<u8>)
    ensures
        grain_header(16).len() == 16,
        first_record(grain_header(16) + rest) == Some(16int),
{
    let h = grain_header(16);
    lemma_le_len(0, 4);
    assert((h + rest).subrange(0, 8) =~= GRAIN_MAGIC@);
}

proof fn lemma_rebased_header(first_rec: nat, rest: Seq<u8>)
    requires
        16 < first_rec < 0x1_0000_0000,
        first_rec <= 16 + rest.len(),
    ensures
        grain_header(first_rec).len() == 16,
        first_record(grain_header(first_rec) + rest) == Some(first_rec as int),
{
    let h = grain_header(first_rec);
    lemma_pow256();
    lemma_le_len(first_rec, 4);
    let head = GRAIN_MAGIC_V2@ + seq![0u8, 3, 64, 7];
    lemma_le_in_middle(head, first_rec, 4, rest);
    assert((h + rest).subrange(0, 8) =~= GRAIN_MAGIC_V2@);
    assert(GRAIN_MAGIC@[7] != GRAIN_MAGIC_V2@[7]);
}

/// After a rebase, chunk `i` of the grain answers for what was chunk `i + k`,
/// and the dropped ones are gone rather than shifted into place: rewriting the
/// file keeps every filter but the first `k`.
pub proof fn a_rewrite_keeps_every_other_filter(b: Seq<u8>, k: nat)
    requires
        first_record(b) is Some,
        skipped(b, first_record(b)->Some_0, k) is Some,
    ensures
        filters_of(
            grain_header(16) + b.skip(skipped(b, first_record(b)->Some_0, k)->Some_0),
        ) == Some(filters_of(b)->Some_0.skip(k as int)),
{
    let first = first_record(b)->Some_0;
    let s = skipped(b, first, k)->Some_0;
    lemma_skipped_filters(b, first, k);
    let tail = b.skip(s);
    let c = grain_header(16) + tail;
    lemma_fresh_header(tail);
    assert(c.skip(16) =~= tail);
    lemma_tail_decides(b, s, c, 16);
}

/// Collapsing whole blocks off the front and stamping the header over what is
/// left keeps the same filters as a rewrite does.
pub proof fn a_collapse_keeps_every_other_filter(b: Seq<u8>, k: nat, aligned: int)
    requires
        first_record(b) is Some,
        skipped(b, first_record(b)->Some_0, k) is Some,
        0 <= aligned <= skipped(b, first_record(b)->Some_0, k)->Some_0 - 16,
        skipped(b, first_record(b)->Some_0, k)->Some_0 - aligned < 0x1_0000_0000,
    ensures
        ({
            let first_rec = (skipped(b, first_record(b)->Some_0, k)->Some_0 - aligned) as nat;
            filters_of(grain_header(first_rec) + b.skip(aligned + 16)) == Some(
                filters_of(b)->Some_0.skip(k as int),
            )
        }),
{
    let first = first_record(b)->Some_0;
    let s = skipped(b, first, k)->Some_0;
    lemma_skipped_filters(b, first, k);
    let first_rec = (s - aligned) as nat;
    let rest = b.skip(aligned + 16);
    let c = grain_header(first_rec) + rest;
    if first_rec == 16 {
        lemma_fresh_header(rest);
    } else {
        lemma_rebased_header(first_rec, rest);
    }
    assert(c.skip(first_rec as int) =~= b.skip(s));
    lemma_tail_decides(b, s, c, first_rec as int);
}

proof fn lemma_one_record(page: Seq<u8>, rest: Seq<u8>)
    requires
        page.len() < 0x1_0000_0000,
    ensures
        whole_record(page_record(page) + rest, 0),
        next_record(page_record(page) + rest, 0) == 4 + page.len(),
        filters_from(page_record(page) + rest, 0) == seq![page] + filters_from(rest, 0),
{
    let b = page_record(page) + rest;
    lemma_pow256();
    lemma_le_len(page.len(), 4);
    lemma_le_in_middle(Seq::empty(), page.len(), 4, page + rest);
    assert(b =~= Seq::<u8>::empty() + le(page.len(), 4) + (page + rest));
    assert(b.subrange(4, 4 + page.len() as int) =~= page);
    lemma_shift(page_record(page), rest, 0);
}

proof fn lemma_append(b: Seq<u8>, off: int, page: Seq<u8>)
    requires
        0 <= off <= b.len(),
        records_end(b, off) == b.len(),
        page.len() < 0x1_0000_0000,
    ensures
        filters_from(b + page_record(page), off) == filters_from(b, off).push(page),
        records_end(b + page_record(page), off) == b.len() + 4 + page.len(),
    decreases b.len() - off,
{
    let c = b + page_record(page);
    if whole_record(b, off) {
        let n = next_record(b, off);
        assert(c.subrange(off, off + 4) =~= b.subrange(off, off + 4));
        assert(next_record(c, off) == n);
        assert(c.subrange(off + 4, n) =~= b.subrange(off + 4, n));
        lemma_append(b, n, page);
        let x = seq![b.subrange(off + 4, n)];
        let rest = filters_from(b, n);
        assert(x + rest.push(page) =~= (x + rest).push(page));
    } else {
        assert(off == b.len());
        let none = Seq::<u8>::empty();
        lemma_one_record(page, none);
        lemma_shift(b, page_record(page), 0);
        assert(page_record(page) + none =~= page_record(page));
        assert(filters_from(none, 0) =~= Seq::<Seq<u8>>::empty());
        assert(filters_from(b, off) =~= Seq::<Seq<u8>>::empty());
        assert(filters_from(c, off) =~= filters_from(b, off).push(page));
        let r = page_record(page);
        lemma_le_len(page.len(), 4);
        assert(records_end(r, 0) == records_end(r, 4 + page.len() as int));
        assert(!whole_record(r, 4 + page.len() as int));
    }
}

/// Appending a record to a grain that ends with a whole one adds one filter,
/// the page, and changes none: the next chunk's entry stands at the next
/// chunk's place.
pub proof fn an_appended_page_is_the_next_filter(b: Seq<u8>, page: Seq<u8>)
    requires
        first_record(b) is Some,
        records_end(b, first_record(b)->Some_0) == b.len(),
        page.len() < 0x1_0000_0000,
    ensures
        filters_of(b + page_record(page)) == Some(filters_of(b)->Some_0.push(page)),
        records_end(b + page_record(page), first_record(b + page_record(page))->Some_0) == (b
            + page_record(page)).len(),
{
    let c = b + page_record(page);
    let first = first_record(b)->Some_0;
    lemma_le_len(len32(page.len()), 4);
    assert(c.subrange(0, 8) =~= b.subrange(0, 8));
    assert(c.subrange(12, 16) =~= b.subrange(12, 16));
    lemma_append(b, first, page);
}

proof fn lemma_whole_part(b: Seq<u8>, off: int)
    requires
        0 <= off <= b.len(),
    ensures
        off <= records_end(b, off) <= b.len(),
        filters_from(b.take(records_end(b, off)), off) == filters_from(b, off),
        records_end(b.take(records_end(b, off)), off) == records_end(b, off),
    decreases b.len() - off,
{
    let end = records_end(b, off);
    if whole_record(b, off) {
        let n = next_record(b, off);
        lemma_whole_part(b, n);
        let c = b.take(end);
        assert(c.subrange(off, off + 4) =~= b.subrange(off, off + 4));
        assert(next_record(c, off) == n);
        assert(c.subrange(off + 4, n) =~= b.subrange(off + 4, n));
    }
}

/// An adopted page is the filter of the chunk that it is for, and of no other:
/// the index that is written holds the filters that were there, each in its
/// place, and behind them the page, at the place of its chunk.
pub proof fn a_page_is_filed_under_its_chunk(
    existing: Option<Seq<u8>>,
    chunk: nat,
    page: Seq<u8>,
)
    requires
        takes_page(existing, chunk, page),
    ensures
        ({
            let filters = filters_of(whole_part(existing) + page_record(page));
            &&& filters == Some(filters_there(existing)->Some_0.push(page))
            &&& filters->Some_0.len() == chunk + 1
            &&& filters->Some_0[chunk as int] == page
        }),
{
    let whole = whole_part(existing);
    match existing {
        Some(b) => {
            let first = first_record(b)->Some_0;
            lemma_whole_part(b, first);
            assert(whole.subrange(0, 8) =~= b.subrange(0, 8));
            assert(whole.subrange(12, 16) =~= b.subrange(12, 16));
        },
        None => {
            let none = Seq::<u8>::empty();
            lemma_fresh_header(none);
            assert(whole + none =~= whole);
            assert(filters_from(whole, 16) =~= Seq::<Seq<u8>>::empty());
        },
    }
    an_appended_page_is_the_next_filter(whole, page);
}

/// Records on disk, one after another.
pub open spec fn all_pages(pages: Seq<Seq<u8>>) -> Seq<u8>
    decreases pages.len(),
{
    if pages.len() == 0 {
        Seq::empty()
    } else {
        all_pages(pages.drop_last()) + page_record(pages.last())
    }
}

/// A grain that was built reads back as the filters it was built from, and
/// ends with a whole record.
pub proof fn a_built_grain_reads_back(pages: Seq<Seq<u8>>)
    requires
        forall|i: int| 0 <= i < pages.len() ==> (#[trigger] pages[i]).len() < 0x1_0000_0000,
    ensures
        filters_of(grain_header(16) + all_pages(pages)) == Some(pages),
        first_record(grain_header(16) + all_pages(pages)) == Some(16int),
        records_end(grain_header(16) + all_pages(pages), 16) == (grain_header(16) + all_pages(
            pages,
        )).len(),
    decreases pages.len(),
{
    let b = grain_header(16) + all_pages(pages);
    lemma_fresh_header(all_pages(pages));
    if pages.len() == 0 {
        assert(b =~= grain_header(16));
        assert(filters_from(b, 16) =~= pages);
    } else {
        let init = pages.drop_last();
        assert forall|i: int| 0 <= i < init.len() implies (#[trigger] init[i]).len()
            < 0x1_0000_0000 by {
            assert(init[i] == pages[i]);
        }
        a_built_grain_reads_back(init);
        let a = grain_header(16) + all_pages(init);
        assert(pages.last() == pages[pages.len() - 1]);
        an_appended_page_is_the_next_filter(a, pages.last());
        assert(a + page_record(pages.last()) =~= b);
        assert(init.push(pages.last()) =~= pages);
    }
}

} // verus!
