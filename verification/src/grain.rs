//! `.grain`: the per-chunk token index, one Bloom filter per chunk over every
//! token in it, so that a search can skip chunks that definitely do not
//! mention something.
//!
//! Filters are sized at about 10 bits per distinct token with 7 hashes: a
//! false positive costs one needless chunk decompression, and a false negative
//! is the single answer an index must never give.
//!
//! This is a sidecar: derived and rebuildable, and a chunk without an entry
//! means "scan it". On disk: a 16-byte header carrying the tokenizer and hash
//! parameters, then per chunk, in index order, a u32 LE filter length and the
//! filter bits. A record carries no chunk id: its position is the chunk index.

use crate::bytes::{get_u32, le, le_at, lemma_le_len, put_u32};
use crate::frame::len32;
use crate::grain_laws::a_page_is_filed_under_its_chunk;
use crate::tokens::{byte_texts, is_token, tokenize, tokens_ordered};
use vstd::prelude::*;
use vstd::slice::{slice_subrange, slice_to_vec};

verus! {

/// `GRAIN001`.
pub const GRAIN_MAGIC: [u8; 8] = [0x47, 0x52, 0x41, 0x49, 0x4e, 0x30, 0x30, 0x31];

/// `GRAIN002`: as `GRAIN001`, but the header's last field holds the byte
/// offset of the first record, because a head-drop collapsed whole blocks off
/// the front and left dead bytes behind them. Written only there, so a grain
/// that has never been head-dropped stays readable by older builds.
pub const GRAIN_MAGIC_V2: [u8; 8] = [0x47, 0x52, 0x41, 0x49, 0x4e, 0x30, 0x30, 0x32];

pub const HEADER_LEN: usize = 16;

// ------------------------------------------------------------------ hashing

/// FNV-1a over bytes, from a running hash.
pub open spec fn fnv_from(h: u64, data: Seq<u8>) -> u64
    decreases data.len(),
{
    if data.len() == 0 {
        h
    } else {
        (fnv_from(h, data.drop_last()) ^ (data.last() as u64)).wrapping_mul(0x100000001b3)
    }
}

/// FNV-1a over bytes, with a seed.
pub open spec fn fnv1a(seed: u64, data: Seq<u8>) -> u64 {
    fnv_from(0xcbf29ce484222325u64 ^ seed.wrapping_mul(0x100000001b3), data)
}

/// The `i`th bit that a token sets in a filter of `m` bits: double hashing.
pub open spec fn bit_position(token: Seq<u8>, m: nat, i: nat) -> nat {
    let h1 = fnv1a(0, token);
    let h2 = fnv1a(0x9e3779b97f4a7c15, token) | 1;
    h1.wrapping_add((i as u64).wrapping_mul(h2)) as nat % m
}

fn fnv(seed: u64, data: &[u8]) -> (h: u64)
    ensures
        h == fnv1a(seed, data@),
{
    let mut h: u64 = 0xcbf29ce484222325u64 ^ seed.wrapping_mul(0x100000001b3);
    let ghost h0 = h;
    let mut i: usize = 0;
    assert(data@.take(0) =~= Seq::empty());
    while i < data.len()
        invariant
            i <= data@.len(),
            h == fnv_from(h0, data@.take(i as int)),
        decreases data@.len() - i,
    {
        proof {
            assert(data@.take(i + 1).drop_last() =~= data@.take(i as int));
            assert(data@.take(i + 1).last() == data@[i as int]);
        }
        h = (h ^ (data[i] as u64)).wrapping_mul(0x100000001b3);
        i = i + 1;
    }
    assert(data@.take(i as int) =~= data@);
    h
}

/// The two hashes of a token.
struct Hashes {
    h1: u64,
    h2: u64,
}

spec fn hashes_of(h: Hashes, token: Seq<u8>) -> bool {
    h.h1 == fnv1a(0, token) && h.h2 == fnv1a(0x9e3779b97f4a7c15, token) | 1
}

fn hash(token: &[u8]) -> (h: Hashes)
    ensures
        hashes_of(h, token@),
{
    Hashes { h1: fnv(0, token), h2: fnv(0x9e3779b97f4a7c15, token) | 1 }
}

fn position(h: &Hashes, m: u128, i: u64, Ghost(token): Ghost<Seq<u8>>) -> (p: u128)
    requires
        m > 0,
        hashes_of(*h, token),
    ensures
        p == bit_position(token, m as nat, i as nat),
        p < m,
{
    (h.h1.wrapping_add(i.wrapping_mul(h.h2)) as u128) % m
}

// ------------------------------------------------------------------ filters

/// Whether bit `p` of a filter is set.
pub open spec fn bit_set(filter: Seq<u8>, p: nat) -> bool {
    filter[(p / 8) as int] & (1u8 << ((p % 8) as u8)) != 0
}

/// How many bits a filter for `n` tokens has.
pub open spec fn filter_bits(n: nat) -> nat {
    let m = if n == 0 {
        1
    } else {
        n
    };
    ((10 * m + 63) / 64) * 64
}

/// Whether one of the tokens sets bit `p`.
pub open spec fn some_sets(tokens: Seq<Seq<u8>>, m: nat, p: nat) -> bool {
    exists|t: int, i: nat|
        0 <= t < tokens.len() && i < 7 && #[trigger] bit_position(tokens[t], m, i) == p
}

/// Whether a filter is the one for the tokens: sized for them, with exactly
/// the bits set that one of them sets.
pub open spec fn is_filter_of(filter: Seq<u8>, tokens: Seq<Seq<u8>>) -> bool {
    let m = filter_bits(tokens.len());
    filter.len() * 8 == m && forall|p: nat|
        p < m ==> (#[trigger] bit_set(filter, p) <==> some_sets(tokens, m, p))
}

/// Whether a filter may hold a token: all its bits are set, or there is no
/// filter to ask.
pub open spec fn may_hold(filter: Seq<u8>, token: Seq<u8>) -> bool {
    filter.len() == 0 || forall|i: nat|
        i < 7 ==> bit_set(filter, #[trigger] bit_position(token, filter.len() * 8, i))
}

/// A filter denies no token that it was built from: what an index answers may
/// be needless, and is never a miss.
pub proof fn no_false_negatives(filter: Seq<u8>, tokens: Seq<Seq<u8>>, t: int)
    requires
        is_filter_of(filter, tokens),
        0 <= t < tokens.len(),
    ensures
        may_hold(filter, tokens[t]),
{
    let m = filter_bits(tokens.len());
    assert forall|i: nat| i < 7 implies bit_set(
        filter,
        #[trigger] bit_position(tokens[t], filter.len() * 8, i),
    ) by {
        let p = bit_position(tokens[t], m, i);
        assert(p < m);
        assert(some_sets(tokens, m, p));
        assert(bit_set(filter, p));
    }
}

proof fn lemma_set_bit(x: u8, r: u8, s: u8)
    requires
        r < 8,
        s < 8,
    ensures
        (((x | (1u8 << r)) & (1u8 << s)) != 0) <==> ((x & (1u8 << s)) != 0 || r == s),
        (0u8 & (1u8 << s)) == 0,
{
    assert(r < 8 && s < 8 ==> ((((x | (1u8 << r)) & (1u8 << s)) != 0) <==> ((x & (1u8 << s)) != 0
        || r == s))) by (bit_vector);
    assert((0u8 & (1u8 << s)) == 0) by (bit_vector);
}

fn set_bit(bits: &mut Vec<u8>, p: u128)
    requires
        p < old(bits)@.len() * 8,
    ensures
        final(bits)@.len() == old(bits)@.len(),
        forall|q: nat|
            q < old(bits)@.len() * 8 ==> (#[trigger] bit_set(final(bits)@, q) <==> bit_set(
                old(bits)@,
                q,
            ) || q == p),
{
    let size: usize = bits.len();
    assert(p / 8 < size);
    let k: usize = (p / 8) as usize;
    let r: u8 = (p % 8) as u8;
    let ghost was = bits@;
    let x: u8 = bits[k];
    bits[k] = x | (1u8 << r);
    proof {
        assert forall|q: nat| q < was.len() * 8 implies (#[trigger] bit_set(bits@, q) <==> bit_set(
            was,
            q,
        ) || q == p) by {
            let s = (q % 8) as u8;
            lemma_set_bit(x, r, s);
            if q / 8 == k {
                assert(bits@[(q / 8) as int] == x | (1u8 << r));
                assert(q == p <==> r == s);
            }
        }
    }
}

/// Whether a token sets a bit with one of its first `n` hashes.
spec fn token_sets(token: Seq<u8>, m: nat, n: nat, p: nat) -> bool {
    exists|j: nat| j < n && #[trigger] bit_position(token, m, j) == p
}

/// Sets the bits of a token.
fn mark_token(bits: &mut Vec<u8>, token: &[u8], m: u128)
    requires
        m > 0,
        old(bits)@.len() * 8 == m,
    ensures
        final(bits)@.len() == old(bits)@.len(),
        forall|p: nat|
            p < m ==> (#[trigger] bit_set(final(bits)@, p) <==> bit_set(old(bits)@, p)
                || token_sets(token@, m as nat, 7, p)),
{
    let ghost before = bits@;
    let h = hash(token);
    let mut i: u64 = 0;
    while i < 7
        invariant
            i <= 7,
            m > 0,
            bits@.len() * 8 == m,
            before.len() * 8 == m,
            hashes_of(h, token@),
            forall|p: nat|
                p < m ==> (#[trigger] bit_set(bits@, p) <==> bit_set(before, p) || token_sets(
                    token@,
                    m as nat,
                    i as nat,
                    p,
                )),
        decreases 7 - i,
    {
        let p: u128 = position(&h, m, i, Ghost(token@));
        let ghost mid = bits@;
        set_bit(bits, p);
        proof {
            assert forall|q: nat| q < m implies (#[trigger] bit_set(bits@, q) <==> bit_set(
                before,
                q,
            ) || token_sets(token@, m as nat, (i + 1) as nat, q)) by {
                assert(bit_set(bits@, q) <==> bit_set(mid, q) || q == p);
                assert(bit_position(token@, m as nat, i as nat) == p);
            }
        }
        i = i + 1;
    }
}

proof fn lemma_some_sets_push(tokens: Seq<Seq<u8>>, token: Seq<u8>, m: nat, p: nat)
    ensures
        some_sets(tokens.push(token), m, p) <==> some_sets(tokens, m, p) || token_sets(
            token,
            m,
            7,
            p,
        ),
{
    let next = tokens.push(token);
    if some_sets(tokens, m, p) {
        let (t, j) = choose|t: int, j: nat|
            0 <= t < tokens.len() && j < 7 && #[trigger] bit_position(tokens[t], m, j) == p;
        assert(bit_position(next[t], m, j) == p);
    }
    if token_sets(token, m, 7, p) {
        let j = choose|j: nat| j < 7 && #[trigger] bit_position(token, m, j) == p;
        assert(bit_position(next[tokens.len() as int], m, j) == p);
    }
    if some_sets(next, m, p) {
        let (t, j) = choose|t: int, j: nat|
            0 <= t < next.len() && j < 7 && #[trigger] bit_position(next[t], m, j) == p;
        if t < tokens.len() {
            assert(bit_position(tokens[t], m, j) == p);
        }
    }
}

/// The filter for the tokens.
pub fn build_filter(tokens: &Vec<Vec<u8>>) -> (filter: Vec<u8>)
    requires
        tokens@.len() * 4 <= usize::MAX + 1,
    ensures
        is_filter_of(filter@, byte_texts(tokens@)),
        filter@.len() > 0,
{
    let n: u128 = if tokens.len() == 0 {
        1
    } else {
        tokens.len() as u128
    };
    let m: u128 = ((10 * n + 63) / 64) * 64;
    let ghost all = byte_texts(tokens@);
    assert(m == filter_bits(all.len()));
    let size: usize = (m / 8) as usize;
    let mut bits: Vec<u8> = vec![0u8; size];
    proof {
        assert forall|p: nat| p < m implies !#[trigger] bit_set(bits@, p) by {
            lemma_set_bit(0, 0, (p % 8) as u8);
        }
        assert forall|p: nat| !#[trigger] some_sets(all.take(0), m as nat, p) by {}
    }
    let mut k: usize = 0;
    while k < tokens.len()
        invariant
            k <= tokens@.len(),
            all == byte_texts(tokens@),
            bits@.len() * 8 == m,
            m > 0,
            forall|p: nat|
                p < m ==> (#[trigger] bit_set(bits@, p) <==> some_sets(
                    all.take(k as int),
                    m as nat,
                    p,
                )),
        decreases tokens@.len() - k,
    {
        let ghost before = bits@;
        let ghost token = tokens@[k as int]@;
        mark_token(&mut bits, tokens[k].as_slice(), m);
        proof {
            assert(all[k as int] == token);
            assert(all.take(k + 1) =~= all.take(k as int).push(token));
            assert forall|p: nat| p < m implies (#[trigger] bit_set(bits@, p) <==> some_sets(
                all.take(k + 1),
                m as nat,
                p,
            )) by {
                assert(bit_set(before, p) <==> some_sets(all.take(k as int), m as nat, p));
                lemma_some_sets_push(all.take(k as int), token, m as nat, p);
            }
        }
        k = k + 1;
    }
    assert(all.take(k as int) =~= all);
    bits
}

/// Whether a filter may hold a token.
pub fn filter_contains(filter: &[u8], token: &[u8]) -> (r: bool)
    ensures
        r == may_hold(filter@, token@),
{
    if filter.len() == 0 {
        return true;
    }
    let m: u128 = filter.len() as u128 * 8;
    let h = hash(token);
    let mut i: u64 = 0;
    while i < 7
        invariant
            i <= 7,
            m == filter@.len() * 8,
            m > 0,
            hashes_of(h, token@),
            forall|j: nat|
                j < i ==> bit_set(filter@, #[trigger] bit_position(token@, m as nat, j)),
        decreases 7 - i,
    {
        let p: u128 = position(&h, m, i, Ghost(token@));
        let x: u8 = filter[(p / 8) as usize];
        if x & (1u8 << ((p % 8) as u8)) == 0 {
            assert(!bit_set(filter@, bit_position(token@, m as nat, i as nat)));
            return false;
        }
        i = i + 1;
    }
    true
}

/// The tokens of a search argument: it may contain separators, and every token
/// produced must be present.
pub fn tokenize_query(arg: &str) -> (r: Vec<Vec<u8>>)
    ensures
        tokens_ordered(byte_texts(r@)),
        forall|t: Seq<u8>| #[trigger]
            byte_texts(r@).contains(t) <==> is_token(vstd::utf8::encode_utf8(arg@), t),
{
    tokenize(arg.as_bytes())
}

// ----------------------------------------------------------------- the file

/// The header of a grain whose records start at `first_rec`.
pub open spec fn grain_header(first_rec: nat) -> Seq<u8> {
    if first_rec == HEADER_LEN {
        GRAIN_MAGIC@ + seq![0u8, 3, 64, 7] + le(0, 4)
    } else {
        GRAIN_MAGIC_V2@ + seq![0u8, 3, 64, 7] + le(len32(first_rec), 4)
    }
}

/// The header for a grain whose records start at `first_rec`. Where they start
/// right behind it, as they do in a grain that was never rebased, it is what
/// every build has written.
pub fn header_bytes(first_rec: usize) -> (h: Vec<u8>)
    ensures
        h@ == grain_header(first_rec as nat),
        h@.len() == HEADER_LEN,
{
    let mut h: Vec<u8> = Vec::new();
    if first_rec == HEADER_LEN {
        h.extend_from_slice(GRAIN_MAGIC.as_slice());
    } else {
        h.extend_from_slice(GRAIN_MAGIC_V2.as_slice());
    }
    // Case folding (none), shortest token, longest token, hashes.
    h.push(0);
    h.push(3);
    h.push(64);
    h.push(7);
    if first_rec == HEADER_LEN {
        put_u32(&mut h, 0);
        proof {
            lemma_le_len(0, 4);
        }
    } else {
        put_u32(&mut h, (first_rec as u64 % 0x1_0000_0000) as u32);
        proof {
            lemma_le_len(len32(first_rec as nat), 4);
        }
    }
    assert(h@ =~= grain_header(first_rec as nat));
    h
}

/// Where a grain's records start: nothing where the bytes are no grain.
pub open spec fn first_record(b: Seq<u8>) -> Option<int> {
    let off = le_at(b, 12, 4) as int;
    if b.len() < HEADER_LEN {
        None
    } else if b.subrange(0, 8) == GRAIN_MAGIC@ {
        Some(HEADER_LEN as int)
    } else if b.subrange(0, 8) == GRAIN_MAGIC_V2@ && HEADER_LEN <= off <= b.len() {
        Some(off)
    } else {
        None
    }
}

fn magic_is(b: &[u8], magic: &[u8; 8]) -> (r: bool)
    requires
        b@.len() >= 8,
    ensures
        r == (b@.subrange(0, 8) == magic@),
{
    let mut i: usize = 0;
    while i < 8
        invariant
            i <= 8,
            b@.len() >= 8,
            forall|j: int| 0 <= j < i ==> b@[j] == magic@[j],
        decreases 8 - i,
    {
        if b[i] != magic[i] {
            assert(b@.subrange(0, 8)[i as int] != magic@[i as int]);
            return false;
        }
        i = i + 1;
    }
    assert(b@.subrange(0, 8) =~= magic@);
    true
}

/// Where this grain's records start, or `None` if the bytes are not a grain we
/// understand: then the caller scans or rebuilds, never guesses.
pub fn first_record_offset(buf: &[u8]) -> (r: Option<usize>)
    ensures
        match r {
            Some(off) => first_record(buf@) == Some(off as int) && off <= buf@.len(),
            None => first_record(buf@) is None,
        },
{
    if buf.len() < HEADER_LEN {
        return None;
    }
    if magic_is(buf, &GRAIN_MAGIC) {
        return Some(HEADER_LEN);
    }
    if magic_is(buf, &GRAIN_MAGIC_V2) {
        let off: u32 = get_u32(buf, 12);
        if 16 <= off && off as u64 <= buf.len() as u64 {
            return Some(off as usize);
        }
    }
    None
}

/// Whether a whole record stands at `off`.
pub open spec fn whole_record(b: Seq<u8>, off: int) -> bool {
    off + 4 <= b.len() && off + 4 + le_at(b, off, 4) <= b.len()
}

/// Where the record behind the one at `off` starts.
pub open spec fn next_record(b: Seq<u8>, off: int) -> int {
    off + 4 + le_at(b, off, 4)
}

/// Where the record `n` behind the one at `off` starts: nothing where the file
/// ends first.
pub open spec fn skipped(b: Seq<u8>, off: int, n: nat) -> Option<int>
    decreases n,
{
    if n == 0 {
        Some(off)
    } else if whole_record(b, off) {
        skipped(b, next_record(b, off), (n - 1) as nat)
    } else {
        None
    }
}

fn record_end(b: &[u8], off: usize) -> (r: Option<usize>)
    requires
        off <= b@.len(),
    ensures
        match r {
            Some(end) => whole_record(b@, off as int) && end == next_record(b@, off as int) && off
                + 4 <= end <= b@.len(),
            None => !whole_record(b@, off as int),
        },
{
    if b.len() - off < 4 {
        return None;
    }
    let len: u64 = get_u32(b, off) as u64;
    let rest: usize = b.len() - off - 4;
    if len > rest as u64 {
        return None;
    }
    Some(off + 4 + len as usize)
}

/// Walk `n` records from `off`, returning where the next one starts. `None`
/// when the file ends first: a partial tail of a crash, or a grain that simply
/// does not reach that far.
pub fn skip_records(buf: &[u8], off: usize, n: usize) -> (r: Option<usize>)
    requires
        off <= buf@.len(),
    ensures
        match r {
            Some(end) => skipped(buf@, off as int, n as nat) == Some(end as int) && off <= end
                <= buf@.len(),
            None => skipped(buf@, off as int, n as nat) is None,
        },
{
    let mut at: usize = off;
    let mut left: usize = n;
    while left > 0
        invariant
            off <= at <= buf@.len(),
            skipped(buf@, at as int, left as nat) == skipped(buf@, off as int, n as nat),
        decreases left,
    {
        match record_end(buf, at) {
            Some(end) => at = end,
            None => return None,
        }
        left = left - 1;
    }
    Some(at)
}

/// The filters of the whole records from `off` on.
pub open spec fn filters_from(b: Seq<u8>, off: int) -> Seq<Seq<u8>>
    decreases b.len() - off,
{
    if 0 <= off && whole_record(b, off) {
        seq![b.subrange(off + 4, next_record(b, off))] + filters_from(b, next_record(b, off))
    } else {
        Seq::empty()
    }
}

/// Where the whole records from `off` on end.
pub open spec fn records_end(b: Seq<u8>, off: int) -> int
    decreases b.len() - off,
{
    if 0 <= off && whole_record(b, off) {
        records_end(b, next_record(b, off))
    } else {
        off
    }
}

/// The filters of a grain: nothing where the bytes are no grain.
pub open spec fn filters_of(b: Seq<u8>) -> Option<Seq<Seq<u8>>> {
    match first_record(b) {
        Some(off) => Some(filters_from(b, off)),
        None => None,
    }
}

/// A token index, read: one filter per chunk.
pub struct Grain {
    filters: Vec<Vec<u8>>,
}

impl View for Grain {
    type V = Seq<Seq<u8>>;

    closed spec fn view(&self) -> Seq<Seq<u8>> {
        byte_texts(self.filters@)
    }
}

impl Grain {
    /// The grain that a file's bytes are: nothing where they are none. What a
    /// truncated tail held falls back to scanning.
    pub fn load(buf: &[u8]) -> (r: Option<Grain>)
        ensures
            match r {
                Some(g) => filters_of(buf@) == Some(g@),
                None => filters_of(buf@) is None,
            },
    {
        let first: usize = match first_record_offset(buf) {
            Some(off) => off,
            None => return None,
        };
        let mut filters: Vec<Vec<u8>> = Vec::new();
        let mut off: usize = first;
        let ghost want = filters_from(buf@, first as int);
        assert(byte_texts(filters@) + filters_from(buf@, off as int) =~= want);
        loop
            invariant
                off <= buf@.len(),
                byte_texts(filters@) + filters_from(buf@, off as int) == want,
            ensures
                off <= buf@.len(),
                byte_texts(filters@) + filters_from(buf@, off as int) == want,
                !whole_record(buf@, off as int),
            decreases buf@.len() - off,
        {
            let end: usize = match record_end(buf, off) {
                Some(end) => end,
                None => break,
            };
            let f: Vec<u8> = slice_to_vec(slice_subrange(buf, off + 4, end));
            proof {
                let done = byte_texts(filters@);
                let rest = filters_from(buf@, end as int);
                assert(done + (seq![f@] + rest) =~= done.push(f@) + rest);
                assert(byte_texts(filters@.push(f)) =~= done.push(f@));
            }
            filters.push(f);
            off = end;
        }
        assert(byte_texts(filters@) + filters_from(buf@, off as int) =~= byte_texts(filters@));
        Some(Grain { filters })
    }

    /// How many chunks this grain has entries for. An index lagging its log
    /// covers fewer than the log has; the gap is scanned.
    pub fn chunk_count(&self) -> (n: usize)
        ensures
            n == self@.len(),
    {
        self.filters.len()
    }

    /// One chunk's filter, for shipping it alongside its chunk. `None` beyond
    /// the grain's coverage, which means the destination rebuilds.
    pub fn page(&self, idx: usize) -> (r: Option<&[u8]>)
        ensures
            match r {
                Some(p) => idx < self@.len() && p@ == self@[idx as int],
                None => idx >= self@.len(),
            },
    {
        if idx < self.filters.len() {
            Some(self.filters[idx].as_slice())
        } else {
            None
        }
    }

    /// May chunk `idx` contain all the tokens? A chunk beyond the grain's
    /// coverage answers yes: missing means scan.
    pub fn may_contain_all(&self, idx: usize, tokens: &[Vec<u8>]) -> (r: bool)
        ensures
            r == (idx >= self@.len() || forall|i: int|
                0 <= i < tokens@.len() ==> may_hold(self@[idx as int], #[trigger] tokens@[i]@)),
    {
        if idx >= self.filters.len() {
            return true;
        }
        let mut i: usize = 0;
        while i < tokens.len()
            invariant
                i <= tokens@.len(),
                idx < self.filters@.len(),
                forall|j: int|
                    0 <= j < i ==> may_hold(self@[idx as int], #[trigger] tokens@[j]@),
            decreases tokens@.len() - i,
        {
            if !filter_contains(self.filters[idx].as_slice(), tokens[i].as_slice()) {
                assert(!may_hold(self@[idx as int], tokens@[i as int]@));
                return false;
            }
            i = i + 1;
        }
        true
    }
}

/// Whether a header describes the tokenizer that this build uses.
pub open spec fn header_understood(b: Seq<u8>) -> bool {
    b.len() >= HEADER_LEN && (b.subrange(0, 8) == GRAIN_MAGIC@ || b.subrange(0, 8)
        == GRAIN_MAGIC_V2@) && b.subrange(8, 12) == seq![0u8, 3, 64, 7]
}

/// Does a grain header from elsewhere describe the tokenizer this build uses?
/// A page built under different parameters, read under ours, gives false
/// negatives, so a mismatch means "do not adopt".
pub fn header_matches(bytes: &[u8]) -> (r: bool)
    ensures
        r == header_understood(bytes@),
{
    if bytes.len() < HEADER_LEN {
        return false;
    }
    if !magic_is(bytes, &GRAIN_MAGIC) && !magic_is(bytes, &GRAIN_MAGIC_V2) {
        return false;
    }
    let ok: bool = bytes[8] == 0 && bytes[9] == 3 && bytes[10] == 64 && bytes[11] == 7;
    proof {
        let p = bytes@.subrange(8, 12);
        if ok {
            assert(p =~= seq![0u8, 3, 64, 7]);
        } else {
            assert(p[0] == bytes@[8] && p[1] == bytes@[9] && p[2] == bytes@[10] && p[3]
                == bytes@[11]);
        }
    }
    ok
}

// -------------------------------------------------------------- maintenance

/// One record of a grain.
pub open spec fn page_record(page: Seq<u8>) -> Seq<u8> {
    le(len32(page.len()), 4) + page
}

fn put_record(buf: &mut Vec<u8>, page: &[u8])
    ensures
        final(buf)@ == old(buf)@ + page_record(page@),
{
    put_u32(buf, (page.len() as u64 % 0x1_0000_0000) as u32);
    buf.extend_from_slice(page);
    assert(buf@ =~= old(buf)@ + page_record(page@));
}

/// What adopting a filter does to an index: its file is written, or there is
/// none to be left, and the next extend builds it anew.
#[derive(Debug, Clone, PartialEq, Eq)]
pub enum PageStep {
    Write(Vec<u8>),
    Remove,
}

/// The filters that an index holds. Where there is no file, it holds none.
pub open spec fn filters_there(existing: Option<Seq<u8>>) -> Option<Seq<Seq<u8>>> {
    match existing {
        Some(b) => filters_of(b),
        None => Some(Seq::empty()),
    }
}

/// The index up to where its last whole record ends, which is where the next
/// record goes: the partial record of a crash is no part of it.
pub open spec fn whole_part(existing: Option<Seq<u8>>) -> Seq<u8> {
    match existing {
        Some(b) => match first_record(b) {
            Some(first) => b.take(records_end(b, first)),
            None => b,
        },
        None => grain_header(16),
    }
}

/// Whether a page can be the record of chunk `chunk`: the index is one, it
/// covers the chunks before that one and no others, and the page has a length
/// that a record can state.
pub open spec fn takes_page(existing: Option<Seq<u8>>, chunk: nat, page: Seq<u8>) -> bool {
    match filters_there(existing) {
        Some(filters) => filters.len() == chunk && page.len() < 0x1_0000_0000,
        None => false,
    }
}

/// What adopting one filter computed elsewhere takes, as the record of chunk
/// `chunk`, which has just been appended to its log. A record's position is its
/// chunk's index, so where the two would not be in step there is no index to be
/// left: the page never answers for another chunk.
pub fn append_page(existing: Option<&[u8]>, chunk: usize, page: &[u8]) -> (r: PageStep)
    ensures
        ({
            let before = match existing {
                Some(b) => Some(b@),
                None => None,
            };
            match r {
                PageStep::Write(w) => {
                    &&& takes_page(before, chunk as nat, page@)
                    &&& w@ == whole_part(before) + page_record(page@)
                    &&& filters_of(w@) == Some(filters_there(before)->Some_0.push(page@))
                },
                PageStep::Remove => !takes_page(before, chunk as nat, page@),
            }
        }),
{
    if page.len() as u64 >= 0x1_0000_0000 {
        return PageStep::Remove;
    }
    let ghost before = match existing {
        Some(b) => Some(b@),
        None => None,
    };
    let mut buf: Vec<u8> = match existing {
        Some(b) => match first_record_offset(b) {
            Some(first) => {
                let (covered, end) = walked(b, first);
                if covered != chunk {
                    return PageStep::Remove;
                }
                let whole: &[u8] = slice_subrange(b, 0, end);
                assert(whole@ =~= b@.take(end as int));
                slice_to_vec(whole)
            },
            None => return PageStep::Remove,
        },
        None => {
            if chunk != 0 {
                return PageStep::Remove;
            }
            header_bytes(HEADER_LEN)
        },
    };
    put_record(&mut buf, page);
    proof {
        a_page_is_filed_under_its_chunk(before, chunk as nat, page@);
    }
    PageStep::Write(buf)
}

/// How many whole records stand from `first` on, and where they end.
fn walked(b: &[u8], first: usize) -> (r: (usize, usize))
    requires
        first <= b@.len(),
    ensures
        r.0 == filters_from(b@, first as int).len(),
        r.1 == records_end(b@, first as int),
        first <= r.1 <= b@.len(),
{
    let mut off: usize = first;
    let mut covered: usize = 0;
    let ghost total = filters_from(b@, first as int).len();
    let ghost end_at = records_end(b@, first as int);
    loop
        invariant
            first <= off <= b@.len(),
            covered * 4 <= off - first,
            covered + filters_from(b@, off as int).len() == total,
            records_end(b@, off as int) == end_at,
        ensures
            first <= off <= b@.len(),
            covered + filters_from(b@, off as int).len() == total,
            records_end(b@, off as int) == end_at,
            !whole_record(b@, off as int),
        decreases b@.len() - off,
    {
        let end: usize = match record_end(b, off) {
            Some(end) => end,
            None => break,
        };
        off = end;
        covered = covered + 1;
    }
    (covered, off)
}

/// What keeping an index current takes.
#[derive(Debug, Clone, Copy, PartialEq, Eq, Structural)]
pub enum ExtendStep {
    /// Build it anew: there is none, or none that fits the log.
    Rebuild,
    UpToDate,
    /// Cut the file at `keep`, which ends a partial record of a crash, and
    /// append a record for each chunk from `covered` on.
    Extend { keep: usize, covered: usize },
}

/// Extend an existing grain to cover chunks appended since it was built, or
/// rebuild it where anything is unexpected: bytes that are no grain, or more
/// records than the log has chunks.
pub fn extend_step(existing: Option<&[u8]>, chunks: usize) -> (r: ExtendStep)
    ensures
        r == (match existing {
            None => ExtendStep::Rebuild,
            Some(b) => match first_record(b@) {
                None => ExtendStep::Rebuild,
                Some(first) => {
                    let covered = filters_from(b@, first).len();
                    if covered > chunks {
                        ExtendStep::Rebuild
                    } else if covered == chunks {
                        ExtendStep::UpToDate
                    } else {
                        ExtendStep::Extend {
                            keep: records_end(b@, first) as usize,
                            covered: covered as usize,
                        }
                    }
                },
            },
        }),
        r is UpToDate <==> existing is Some && filters_of(existing->Some_0@) is Some
            && filters_of(existing->Some_0@)->Some_0.len() == chunks,
        r is Extend ==> r->covered < chunks
            && r->covered == filters_of(existing->Some_0@)->Some_0.len()
            && r->keep <= existing->Some_0@.len(),
{
    let b: &[u8] = match existing {
        Some(b) => b,
        None => return ExtendStep::Rebuild,
    };
    let first: usize = match first_record_offset(b) {
        Some(off) => off,
        None => return ExtendStep::Rebuild,
    };
    let (covered, off) = walked(b, first);
    if covered > chunks {
        ExtendStep::Rebuild
    } else if covered == chunks {
        ExtendStep::UpToDate
    } else {
        ExtendStep::Extend { keep: off, covered }
    }
}

/// The content of zstd frames: nothing where the bytes are none.
pub uninterp spec fn zstd_content(comp: Seq<u8>) -> Option<Seq<u8>>;

/// `zstd::stream::decode_all`: the content of the frames, and nothing where
/// they cannot be read.
#[verifier::external_body]
fn decompressed(comp: &[u8]) -> (r: Option<Vec<u8>>)
    ensures
        match r {
            Some(data) => zstd_content(comp@) == Some(data@),
            None => zstd_content(comp@) is None,
        },
{
    zstd::stream::decode_all(comp).ok()
}

/// A chunk's entry in the index.
pub struct Page {
    /// The record to append: the filter behind its length.
    pub record: Vec<u8>,
    /// How many distinct tokens the chunk holds.
    pub tokens: usize,
}

/// Whether a page is the one for the data.
pub open spec fn is_page_of(p: Page, data: Seq<u8>) -> bool {
    exists|tokens: Seq<Seq<u8>>, filter: Seq<u8>|
        {
            &&& #[trigger] tokens_ordered(tokens)
            &&& forall|t: Seq<u8>| tokens.contains(t) <==> is_token(data, t)
            &&& #[trigger] is_filter_of(filter, tokens)
            &&& p.record@ == page_record(filter)
            &&& p.tokens == tokens.len()
        }
}

/// A chunk's entry in the index, from its content.
pub fn page_of(data: &[u8]) -> (p: Page)
    ensures
        is_page_of(p, data@),
{
    let tokens = tokenize(data);
    let size: usize = data.len();
    assert(tokens@.len() * 4 <= size + 1);
    let filter = build_filter(&tokens);
    let mut record: Vec<u8> = Vec::new();
    put_record(&mut record, filter.as_slice());
    let p = Page { record, tokens: tokens.len() };
    proof {
        assert(p.record@ =~= page_record(filter@));
        assert(tokens_ordered(byte_texts(tokens@)) && is_filter_of(
            filter@,
            byte_texts(tokens@),
        ));
    }
    p
}

/// A chunk's entry in the index, from its compressed bytes: nothing where they
/// cannot be decompressed, which a corrupt store shows.
pub fn chunk_page(comp: &[u8]) -> (r: Option<Page>)
    ensures
        match r {
            Some(p) => zstd_content(comp@) is Some && is_page_of(p, zstd_content(comp@)->Some_0),
            None => zstd_content(comp@) is None,
        },
{
    match decompressed(comp) {
        Some(data) => Some(page_of(data.as_slice())),
        None => None,
    }
}

/// What dropping the first chunks takes, after retention has cut the same ones
/// off the head of the store.
#[derive(Debug, Clone, Copy, PartialEq, Eq, Structural)]
pub enum RebaseStep {
    /// Nothing was dropped, or there is no grain.
    Nothing,
    /// Not a grain, or it covered fewer chunks than were dropped: remove it,
    /// and the next extend rebuilds it.
    Remove,
    /// The records that stay start here.
    Cut { survivors: usize },
}

/// Drop the first `k` chunks' filters. A record's position is its chunk index,
/// so a head-drop renumbers every chunk and would leave each filter answering
/// for the wrong one. The cut is always a prefix, so the fix is a prefix too.
pub fn rebase_step(existing: Option<&[u8]>, k: usize) -> (r: RebaseStep)
    ensures
        r == (if k == 0 || existing is None {
            RebaseStep::Nothing
        } else {
            match first_record(existing->Some_0@) {
                None => RebaseStep::Remove,
                Some(first) => match skipped(existing->Some_0@, first, k as nat) {
                    None => RebaseStep::Remove,
                    Some(survivors) => RebaseStep::Cut { survivors: survivors as usize },
                },
            }
        }),
        r is Cut ==> HEADER_LEN <= r->survivors <= existing->Some_0@.len(),
        r is Nothing <==> k == 0 || existing is None,
        r is Cut ==> filters_of(grain_header(16) + existing->Some_0@.skip(r->survivors as int)) == Some(
            filters_of(existing->Some_0@)->Some_0.skip(k as int),
        ),
{
    if k == 0 {
        return RebaseStep::Nothing;
    }
    let b: &[u8] = match existing {
        Some(b) => b,
        None => return RebaseStep::Nothing,
    };
    match first_record_offset(b) {
        None => RebaseStep::Remove,
        Some(first) => match skip_records(b, first, k) {
            None => RebaseStep::Remove,
            Some(survivors) => {
                proof {
                    crate::grain_laws::a_rewrite_keeps_every_other_filter(b@, k as nat);
                }
                RebaseStep::Cut { survivors }
            },
        },
    }
}

/// How many bytes to collapse off the front: whole blocks, and never past the
/// room that the header is stamped over.
pub fn collapse_len(survivors: usize, block: u64) -> (n: u64)
    requires
        HEADER_LEN <= survivors,
        block > 0,
    ensures
        n == ((survivors - HEADER_LEN) / block as int) * block,
        n <= survivors - HEADER_LEN,
        n as int % block as int == 0,
        survivors - HEADER_LEN - n < block,
{
    let room: u64 = (survivors - HEADER_LEN) as u64;
    let blocks: u64 = room / block;
    assert(blocks * block <= room) by (nonlinear_arith)
        requires
            blocks == room / block,
            block > 0,
    ;
    assert(room < blocks * block + block) by (nonlinear_arith)
        requires
            blocks == room / block,
            block > 0,
    ;
    assert((blocks as int * block as int) % (block as int) == 0) by (nonlinear_arith)
        requires
            block > 0,
    ;
    blocks * block
}

/// The grain rewritten without what was cut: records back right behind the
/// header.
pub fn rewritten(buf: &[u8], survivors: usize) -> (r: Vec<u8>)
    requires
        survivors <= buf@.len(),
    ensures
        r@ == grain_header(16) + buf@.skip(survivors as int),
{
    let mut r = header_bytes(HEADER_LEN);
    let tail: &[u8] = slice_subrange(buf, survivors, buf.len());
    assert(tail@ =~= buf@.skip(survivors as int));
    r.extend_from_slice(tail);
    assert(r@ =~= grain_header(16) + buf@.skip(survivors as int));
    r
}

} // verus!
