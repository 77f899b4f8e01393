//! What taking in forwarded records and replicated streams comes to.

use crate::forward::{
    all_timed, arrived, be32, bound_said, decoded, double_value, due, fed, line_of, lined, not_due,
    of_others, payload, seconds_ms, seeded, single_value, taken, time_ms, timed, warned, BatchModel,
    DecodeProblem, ForwardOpts, LineModel, PartialModel, PendingModel, Positive,
};
use crate::frames::{open_after, step_of, Incoming, OpenedTwice, Step};
use crate::json::{json_quoted, JsonModel};
use crate::lists::lemma_push;
use crate::measure::product;
use crate::msgpack::{
    big_endian, compact, field, field_from, first_value, key_text, last_under, one_pair,
    signed_decimal, text_at, text_bytes, text_in, Member, MsgModel, PairModel,
};
use crate::text::{decimal, joined};
use crate::wire::{lacks, lemma_find_byte_is, lossy, split_bytes};
use vstd::prelude::*;
use vstd::utf8::{decode_utf8, encode_utf8, valid_utf8};

verus! {

// -------------------------------------------------------------------- times

/// A number is written with its highest byte first, in as many bytes as it is
/// given.
pub proof fn the_highest_byte_comes_first(n: nat)
    ensures
        big_endian(n, 1) == seq![(n % 256) as u8],
        big_endian(n, 2) == seq![(n / 256 % 256) as u8, (n % 256) as u8],
        big_endian(n, 4) == seq![
            (n / 16777216 % 256) as u8,
            (n / 65536 % 256) as u8,
            (n / 256 % 256) as u8,
            (n % 256) as u8,
        ],
{
    reveal_with_fuel(big_endian, 5);
    assert(n / 256 / 256 == n / 65536);
    assert(n / 256 / 256 / 256 == n / 16777216);
    assert(big_endian(n, 1) =~= seq![(n % 256) as u8]);
    assert(big_endian(n, 2) =~= seq![(n / 256 % 256) as u8, (n % 256) as u8]);
    assert(big_endian(n, 4) =~= seq![
        (n / 16777216 % 256) as u8,
        (n / 65536 % 256) as u8,
        (n / 256 % 256) as u8,
        (n % 256) as u8,
    ]);
}

/// A time of seconds and nanoseconds is that many milliseconds, the rest cut
/// off; a time of nothing is now.
pub proof fn a_time_is_its_milliseconds(seconds: nat, nanos: nat, now: u64)
    requires
        seconds < 0x1_0000_0000,
        nanos < 0x1_0000_0000,
    ensures
        seconds > 0 || nanos > 0 ==> time_ms(
            MsgModel::Ext(0, big_endian(seconds, 4) + big_endian(nanos, 4)),
            now,
        ) == seconds * 1_000 + nanos / 1_000_000,
        seconds == 0 && nanos == 0 ==> time_ms(
            MsgModel::Ext(0, big_endian(seconds, 4) + big_endian(nanos, 4)),
            now,
        ) == now,
{
    the_highest_byte_comes_first(seconds);
    the_highest_byte_comes_first(nanos);
    let b = big_endian(seconds, 4) + big_endian(nanos, 4);
    assert(b.len() == 8);
    assert(be32(b, 0) == seconds);
    assert(be32(b, 4) == nanos);
}

/// A whole number of seconds is a thousand times as many milliseconds, as far as
/// they go; no time, a time before all time and what is no time are now.
pub proof fn seconds_are_a_thousand_milliseconds(s: u64, kind: i8, b: Seq<u8>, n: i64, now: u64)
    ensures
        s == 0 ==> time_ms(MsgModel::Unsigned(s), now) == now,
        s > 0 && s * 1_000 <= u64::MAX ==> time_ms(MsgModel::Unsigned(s), now) == s * 1_000,
        s * 1_000 > u64::MAX ==> time_ms(MsgModel::Unsigned(s), now) == u64::MAX,
        time_ms(MsgModel::Negative(n), now) == now,
        time_ms(MsgModel::Nil, now) == now,
        kind != 0 || b.len() != 8 ==> time_ms(MsgModel::Ext(kind, b), now) == now,
{
}

/// A binary64 number above nothing is its fraction, behind a leading one unless
/// its exponent is the least, at the scale that its exponent says; what is not a
/// number, not finite, nothing or negative is told apart.
pub proof fn a_double_is_what_its_bits_say(bits: u64)
    ensures
        bits == 0 ==> double_value(bits) is None,
        bits >= 0x8000_0000_0000_0000 ==> double_value(bits) is None,
        0 < bits < 0x10_0000_0000_0000 ==> double_value(bits) == Some(
            (Positive::Finite { count: bits as nat, scale: -1074 }),
        ),
        0x10_0000_0000_0000 <= bits < 0x7ff0_0000_0000_0000 ==> {
            &&& double_value(bits) is Some && double_value(bits)->Some_0 is Finite
            &&& 0x10_0000_0000_0000 <= double_value(bits)->Some_0->count < 0x20_0000_0000_0000
            &&& (double_value(bits)->Some_0->scale + 1074) * 0x10_0000_0000_0000 + double_value(
                bits,
            )->Some_0->count == bits
        },
        bits == 0x7ff0_0000_0000_0000 ==> double_value(bits) == Some(Positive::Infinite),
        0x7ff0_0000_0000_0000 < bits ==> double_value(bits) is None,
{
}

/// A binary32 number is read in the same way.
pub proof fn a_single_is_what_its_bits_say(bits: u32)
    ensures
        bits == 0 ==> single_value(bits) is None,
        bits >= 0x8000_0000 ==> single_value(bits) is None,
        0 < bits < 0x80_0000 ==> single_value(bits) == Some(
            (Positive::Finite { count: bits as nat, scale: -149 }),
        ),
        0x80_0000 <= bits < 0x7f80_0000 ==> {
            &&& single_value(bits) is Some && single_value(bits)->Some_0 is Finite
            &&& 0x80_0000 <= single_value(bits)->Some_0->count < 0x100_0000
            &&& (single_value(bits)->Some_0->scale + 149) * 0x80_0000 + single_value(
                bits,
            )->Some_0->count == bits
        },
        bits == 0x7f80_0000 ==> single_value(bits) == Some(Positive::Infinite),
        0x7f80_0000 < bits ==> single_value(bits) is None,
{
}

// ----------------------------------------------------------------- messages

/// Whether a value is an entry: a list of a time and a record at least.
pub open spec fn is_entry(v: MsgModel) -> bool {
    v is Array && v->Array_0.len() >= 2
}

/// A list of entries is taken entry by entry, each at its own time and with its
/// own record, and refused where one of them is none.
pub proof fn entries_are_taken_one_by_one(pairs: Seq<MsgModel>, now: u64, i: int)
    ensures
        all_timed(pairs, now) is Ok <==> forall|j: int|
            0 <= j < pairs.len() ==> is_entry(#[trigger] pairs[j]),
        all_timed(pairs, now) is Ok ==> all_timed(pairs, now)->Ok_0.len() == pairs.len(),
        all_timed(pairs, now) is Ok && 0 <= i < pairs.len() ==> all_timed(pairs, now)->Ok_0[i] == (
            time_ms(pairs[i]->Array_0[0], now),
            pairs[i]->Array_0[1],
        ),
    decreases pairs.len(),
{
    if pairs.len() > 0 {
        let front = pairs.drop_last();
        entries_are_taken_one_by_one(front, now, i);
        assert(pairs[pairs.len() - 1] == pairs.last());
        assert forall|j: int| 0 <= j < front.len() implies #[trigger] front[j] == pairs[j] by {}
        assert(timed(pairs.last(), now) is Ok <==> is_entry(pairs.last()));
        if forall|j: int| 0 <= j < pairs.len() ==> is_entry(#[trigger] pairs[j]) {
            assert(is_entry(pairs[pairs.len() - 1]));
            assert forall|j: int| 0 <= j < front.len() implies is_entry(#[trigger] front[j]) by {
                assert(is_entry(pairs[j]));
            }
        }
        if all_timed(pairs, now) is Ok {
            assert forall|j: int| 0 <= j < pairs.len() implies is_entry(#[trigger] pairs[j]) by {
                if j < front.len() {
                    assert(is_entry(front[j]));
                }
            }
            if 0 <= i < front.len() {
                assert(front[i] == pairs[i]);
            }
        }
    }
}

/// A message is a list of a tag, which is a text, and what it carries: a time
/// and a record, a list of entries, or packed entries, which are not taken
/// where they are compressed. Its options stand behind that.
pub proof fn a_message_is_a_tag_and_what_it_carries(v: MsgModel, now: u64)
    ensures
        decoded(v, now) is Ok ==> v is Array && v->Array_0.len() >= 2 && v->Array_0[0] is Text
            && decoded(v, now)->Ok_0.tag == lossy(v->Array_0[0]->Text_0),
        decoded(v, now) is Ok && v->Array_0[1] is Array ==> {
            &&& Ok::<Seq<(u64, MsgModel)>, DecodeProblem>(decoded(v, now)->Ok_0.entries)
                == all_timed(v->Array_0[1]->Array_0, now)
            &&& v->Array_0.len() > 2 ==> decoded(v, now)->Ok_0.chunk == text_at(
                v->Array_0[2],
                "chunk"@,
            )
            &&& v->Array_0.len() == 2 ==> decoded(v, now)->Ok_0.chunk is None
        },
        decoded(v, now) is Ok && (v->Array_0[1] is Unsigned || v->Array_0[1] is Negative
            || v->Array_0[1] is Ext || v->Array_0[1] is Single || v->Array_0[1] is Double) ==> {
            &&& v->Array_0.len() >= 3
            &&& decoded(v, now)->Ok_0.entries == seq![
                (time_ms(v->Array_0[1], now), v->Array_0[2]),
            ]
            &&& v->Array_0.len() > 3 ==> decoded(v, now)->Ok_0.chunk == text_at(
                v->Array_0[3],
                "chunk"@,
            )
        },
        v is Array && v->Array_0.len() >= 2 && (v->Array_0[1] is Nil || v->Array_0[1] is Bool
            || v->Array_0[1] is Table) ==> decoded(v, now) is Err,
        v is Array && v->Array_0.len() > 2 && (v->Array_0[1] is Text || v->Array_0[1] is Binary)
            && text_at(v->Array_0[2], "compressed"@) == Some("gzip"@) ==> decoded(v, now) is Err,
{
}

/// A record's line is what its key holds, byte for byte, where that is text, and
/// the record itself otherwise; it ends with one line feed of its own or the
/// one that it has.
pub proof fn a_line_is_what_its_key_holds(record: MsgModel, key: Seq<char>, b: Seq<u8>)
    ensures
        field(record, key) == Some(MsgModel::Text(b)) ==> payload(record, key) == b,
        field(record, key) is None || !(field(record, key)->Some_0 is Text) ==> payload(
            record,
            key,
        ) == encode_utf8(compact(record)),
        lined(b).len() > 0 && lined(b).last() == 10,
        b.len() > 0 && b.last() == 10 ==> lined(b) == b,
        b.len() == 0 || b.last() != 10 ==> lined(b).drop_last() == b,
        lined(lined(b)) == lined(b),
{
    if b.len() == 0 || b.last() != 10 {
        assert(lined(b).drop_last() =~= b);
    }
}

/// A record's field is the first of its key, and what is no table has none.
pub proof fn a_field_of_a_record_is_the_first_of_its_key(
    pairs: Seq<PairModel>,
    key: Seq<char>,
    i: int,
)
    ensures
        0 <= i < pairs.len() && text_in(pairs[i].key) == Some(key) && (forall|j: int|
            0 <= j < i ==> text_in((#[trigger] pairs[j]).key) != Some(key)) ==> field(
            MsgModel::Table(pairs),
            key,
        ) == Some(pairs[i].value),
        (forall|j: int| 0 <= j < pairs.len() ==> text_in((#[trigger] pairs[j]).key) != Some(key))
            ==> field(MsgModel::Table(pairs), key) is None,
        field(MsgModel::Nil, key) is None,
        field(MsgModel::Array(Seq::empty()), key) is None,
{
    lemma_field(pairs, key, 0, i);
}

proof fn lemma_field(pairs: Seq<PairModel>, key: Seq<char>, at: int, i: int)
    requires
        0 <= at <= pairs.len(),
    ensures
        at <= i < pairs.len() && text_in(pairs[i].key) == Some(key) && (forall|j: int|
            at <= j < i ==> text_in((#[trigger] pairs[j]).key) != Some(key)) ==> field_from(
            pairs,
            key,
            at,
        ) == Some(pairs[i].value),
        (forall|j: int| at <= j < pairs.len() ==> text_in((#[trigger] pairs[j]).key) != Some(key))
            ==> field_from(pairs, key, at) is None,
    decreases pairs.len() - at,
{
    if at < pairs.len() {
        lemma_field(pairs, key, at + 1, i);
    }
}

/// Only text that is well formed is read as text.
pub proof fn only_well_formed_text_is_text(b: Seq<u8>)
    ensures
        text_in(MsgModel::Text(b)) is Some <==> valid_utf8(b),
        valid_utf8(b) ==> text_in(MsgModel::Text(b)) == Some(decode_utf8(b)),
        text_in(MsgModel::Binary(b)) is None,
        text_in(MsgModel::Nil) is None,
{
}

/// A record that is part of no line passes at once, at its own time, and holds
/// nothing back.
pub proof fn a_whole_record_passes_at_once(
    lines: Seq<PartialModel>,
    now: u64,
    record: MsgModel,
    key: Seq<char>,
)
    requires
        text_at(record, "partial_id"@) is None || text_at(record, "partial_message"@) != Some(
            "true"@,
        ),
    ensures
        fed(lines, now, record, key) == (lines, Some((now, lined(payload(record, key))))),
{
}

proof fn lemma_line_from(lines: Seq<PartialModel>, id: Seq<char>, i: int)
    requires
        0 <= i <= lines.len(),
    ensures
        i <= crate::forward::line_from(lines, id, i) <= lines.len(),
        forall|j: int|
            i <= j < crate::forward::line_from(lines, id, i) ==> (#[trigger] lines[j]).id != id,
        crate::forward::line_from(lines, id, i) < lines.len() ==> lines[crate::forward::line_from(
            lines,
            id,
            i,
        )].id == id,
    decreases lines.len() - i,
{
    if i < lines.len() && lines[i].id != id {
        lemma_line_from(lines, id, i + 1);
    }
}

/// A part of a line is held, at the time of the first, behind the parts before
/// it, until the last one comes or the line is over its limit; then the line
/// leaves as a whole and is held no more. No other line is touched.
pub proof fn a_part_of_a_line_waits_for_the_last(
    lines: Seq<PartialModel>,
    now: u64,
    record: MsgModel,
    key: Seq<char>,
    i: int,
)
    requires
        text_at(record, "partial_message"@) == Some("true"@),
        text_at(record, "partial_id"@) is Some,
        0 <= i < lines.len(),
        lines[i].id == text_at(record, "partial_id"@)->Some_0,
        forall|j: int|
            0 <= j < lines.len() && j != i ==> (#[trigger] lines[j]).id != lines[i].id,
    ensures
        ({
            let whole = lines[i].bytes + payload(record, key);
            let leaves = text_at(record, "partial_last"@) == Some("true"@) || whole.len()
                > 16 * 1024 * 1024;
            let (left, out) = fed(lines, now, record, key);
            &&& leaves ==> out == Some((lines[i].first_time_ms, lined(whole))) && left
                == lines.remove(i)
            &&& !leaves ==> out is None && left.len() == lines.len() && left[i].bytes == whole
                && left[i].first_time_ms == lines[i].first_time_ms && left[i].id == lines[i].id
            &&& !leaves ==> forall|j: int|
                0 <= j < lines.len() && j != i ==> #[trigger] left[j] == lines[j]
        }),
{
    let id = lines[i].id;
    lemma_line_from(lines, id, 0);
    let k = line_of(lines, id);
    if k != i && k < lines.len() {
        assert(lines[k].id != lines[i].id);
    }
}

/// A first part of a line is held by itself, at its own time, as long as there
/// is room for another line; where there is none it passes at once.
pub proof fn a_first_part_is_held_by_itself(
    lines: Seq<PartialModel>,
    now: u64,
    record: MsgModel,
    key: Seq<char>,
)
    requires
        text_at(record, "partial_message"@) == Some("true"@),
        text_at(record, "partial_id"@) is Some,
        forall|j: int|
            0 <= j < lines.len() ==> (#[trigger] lines[j]).id != text_at(
                record,
                "partial_id"@,
            )->Some_0,
    ensures
        ({
            let part = payload(record, key);
            let full = lines.len() >= 1_000;
            let leaves = full || text_at(record, "partial_last"@) == Some("true"@) || part.len()
                > 16 * 1024 * 1024;
            let (left, out) = fed(lines, now, record, key);
            &&& leaves ==> out == Some((now, lined(part))) && left == lines
            &&& !leaves ==> out is None && left == lines.push(
                (PartialModel {
                    id: text_at(record, "partial_id"@)->Some_0,
                    first_time_ms: now,
                    bytes: part,
                }),
            )
        }),
{
    lemma_line_from(lines, text_at(record, "partial_id"@)->Some_0, 0);
}

/// Writing a store out acknowledges what waits for that store and nothing else;
/// a connection that closes takes what was its own and nothing else.
pub proof fn a_store_acknowledges_its_own(
    pending: Seq<PendingModel>,
    store: Seq<char>,
    conn_id: u64,
    p: PendingModel,
)
    ensures
        due(pending, store).contains(p) <==> pending.contains(p) && p.store == store,
        not_due(pending, store).contains(p) <==> pending.contains(p) && p.store != store,
        of_others(pending, conn_id).contains(p) <==> pending.contains(p) && p.conn_id != conn_id,
        due(pending, store).len() + not_due(pending, store).len() == pending.len(),
    decreases pending.len(),
{
    if pending.len() > 0 {
        let front = pending.drop_last();
        let last = pending.last();
        a_store_acknowledges_its_own(front, store, conn_id, p);
        assert(front.push(last) =~= pending);
        lemma_push(front, last, p);
        lemma_push(due(front, store), last, p);
        lemma_push(not_due(front, store), last, p);
        lemma_push(of_others(front, conn_id), last, p);
    }
}

// --------------------------------------------------------------------- wire

/// Bytes split at every separator and nowhere else.
pub proof fn bytes_split_at_every_separator(a: Seq<u8>, x: u8, rest: Seq<u8>)
    requires
        lacks(a, x),
    ensures
        split_bytes(a, x) == seq![a],
        split_bytes(a + seq![x] + rest, x) == seq![a] + split_bytes(rest, x),
{
    lemma_find_byte_is(a, x, a.len() as int);
    let s = a + seq![x] + rest;
    assert forall|i: int| 0 <= i < a.len() implies (#[trigger] s[i]) != x by {
        assert(s[i] == a[i]);
    }
    assert(s[a.len() as int] == x);
    lemma_find_byte_is(s, x, a.len() as int);
    assert(s.take(a.len() as int) =~= a);
    assert(s.skip(a.len() as int + 1) =~= rest);
}

/// A text is written behind its length, in as few bytes as that takes.
pub proof fn a_text_is_written_behind_its_length(b: Seq<u8>, key: Seq<char>, value: Seq<char>)
    requires
        b.len() < 0x1_0000_0000,
    ensures
        b.len() < 32 ==> text_bytes(b) == seq![(160 + b.len()) as u8] + b,
        32 <= b.len() < 256 ==> text_bytes(b) == seq![0xd9u8, b.len() as u8] + b,
        256 <= b.len() < 65536 ==> text_bytes(b) == seq![
            0xdau8,
            (b.len() / 256) as u8,
            (b.len() % 256) as u8,
        ] + b,
        b.len() >= 65536 ==> text_bytes(b) == seq![
            0xdbu8,
            (b.len() / 16777216) as u8,
            (b.len() / 65536 % 256) as u8,
            (b.len() / 256 % 256) as u8,
            (b.len() % 256) as u8,
        ] + b,
        one_pair(key, value) == seq![0x81u8] + text_bytes(encode_utf8(key)) + text_bytes(
            encode_utf8(value),
        ),
{
    let n = b.len();
    the_highest_byte_comes_first(n);
    if 32 <= n < 256 {
        assert(seq![0xd9u8] + big_endian(n, 1) =~= seq![0xd9u8, n as u8]);
    } else if 256 <= n < 65536 {
        assert(seq![0xdau8] + big_endian(n, 2) =~= seq![
            0xdau8,
            (n / 256) as u8,
            (n % 256) as u8,
        ]);
    } else if n >= 65536 {
        assert(seq![0xdbu8] + big_endian(n, 4) =~= seq![
            0xdbu8,
            (n / 16777216) as u8,
            (n / 65536 % 256) as u8,
            (n / 256 % 256) as u8,
            (n % 256) as u8,
        ]);
    }
}

/// Of the members of one name in a record the last is written; a key that is no
/// text is written as it is shown; a number below nothing behind a minus sign.
pub proof fn the_last_member_of_a_record_is_written(
    members: Seq<Member>,
    key: Seq<char>,
    i: int,
    p: PairModel,
    n: int,
)
    ensures
        0 <= i < members.len() && members[i].key == key && (forall|j: int|
            i < j < members.len() ==> (#[trigger] members[j]).key != key) ==> last_under(
            members,
            key,
        ) == members[i].json,
        p.key is Text ==> key_text(p) == lossy(p.key->Text_0),
        !(p.key is Text) ==> key_text(p) == p.shown,
        n >= 0 ==> signed_decimal(n) == decimal(n as nat),
        n < 0 ==> signed_decimal(n) == seq!['-'] + decimal((-n) as nat),
    decreases members.len(),
{
    reveal_strlit("-");
    assert("-"@ =~= seq!['-']);
    if members.len() > 0 {
        let front = members.drop_last();
        assert forall|j: int| 0 <= j < front.len() implies #[trigger] front[j] == members[j] by {}
        assert(members[members.len() - 1] == members.last());
        the_last_member_of_a_record_is_written(front, key, i, p, n);
    }
}

// ------------------------------------------------------------------ streams

/// What comes for a stream that is open is applied, and acknowledged where it is
/// a chunk; an end finishes it; what comes for any other stream is passed over,
/// and a stream that is open is not opened again.
pub proof fn what_comes_for_a_stream(open: Seq<u32>, stream: u32, other: u32)
    requires
        open.no_duplicates(),
    ensures
        step_of(open, stream, Incoming::Open) is Err <==> open.contains(stream),
        !open.contains(stream) ==> step_of(open, stream, Incoming::Open) == Ok::<
            Step,
            OpenedTwice,
        >(Step::Open),
        open.contains(stream) ==> step_of(open, stream, Incoming::Chunk) == Ok::<
            Step,
            OpenedTwice,
        >(Step::Apply { acknowledge: true }) && step_of(open, stream, Incoming::Other) == Ok::<
            Step,
            OpenedTwice,
        >(Step::Apply { acknowledge: false }) && step_of(open, stream, Incoming::Close) == Ok::<
            Step,
            OpenedTwice,
        >(Step::Finish),
        !open.contains(stream) ==> step_of(open, stream, Incoming::Chunk) == Ok::<
            Step,
            OpenedTwice,
        >(Step::Ignore) && step_of(open, stream, Incoming::Other) == Ok::<Step, OpenedTwice>(
            Step::Ignore,
        ) && step_of(open, stream, Incoming::Close) == Ok::<Step, OpenedTwice>(Step::Ignore),
        open_after(open, stream, Incoming::Close).contains(other) <==> open.contains(other)
            && other != stream,
        open_after(open, stream, Incoming::Chunk) == open,
        open_after(open, stream, Incoming::Other) == open,
{
    if open.contains(stream) {
        let k = open.index_of(stream);
        let now = open.remove(k);
        assert(0 <= k < open.len() && open[k] == stream);
        if now.contains(other) {
            let i = choose|i: int| 0 <= i < now.len() && now[i] == other;
            assert(open[if i < k {
                i
            } else {
                i + 1
            }] == other);
        }
        if open.contains(other) && other != stream {
            let i = choose|i: int| 0 <= i < open.len() && open[i] == other;
            assert(now[if i < k {
                i
            } else {
                i - 1
            }] == other);
        }
    }
}

/// Every entry that completes a line is one, in order, with the line and what
/// the entry says of where it comes from; an entry that does not is held.
pub proof fn every_completed_line_is_taken(
    lines: Seq<PartialModel>,
    entries: Seq<(u64, MsgModel)>,
    entry: (u64, MsgModel),
    key: Seq<char>,
)
    ensures
        ({
            let (left, out) = taken(lines, entries, key);
            let (after, done) = fed(left, entry.0, entry.1, key);
            let (left2, out2) = taken(lines, entries.push(entry), key);
            &&& taken(lines, Seq::empty(), key) == (lines, Seq::<LineModel>::empty())
            &&& left2 == after
            &&& done is None ==> out2 == out
            &&& done is Some ==> out2.len() == out.len() + 1 && out2.drop_last() == out
                && out2.last().time_ms == done->Some_0.0 && out2.last().payload == done->Some_0.1
                && out2.last().container_id == text_at(entry.1, "container_id"@)
                && out2.last().container_name == text_at(entry.1, "container_name"@)
        }),
{
    let all = entries.push(entry);
    assert(all.drop_last() =~= entries);
    let (left, out) = taken(lines, entries, key);
    let (_, out2) = taken(lines, all, key);
    if fed(left, entry.0, entry.1, key).1 is Some {
        assert(out2.drop_last() =~= out);
    }
}

/// What arrived is taken message by message: what is not whole yet waits as it
/// is, and what cannot be read closes the connection; a message that can is a
/// batch, and what follows it is taken with the lines that it left.
pub proof fn what_arrived_is_taken_message_by_message(
    bytes: Seq<u8>,
    lines: Seq<PartialModel>,
    peer: Seq<char>,
    key: Seq<char>,
    now: u64,
    before: Seq<BatchModel>,
)
    ensures
        ({
            let first = first_value(bytes);
            let a = arrived(bytes, lines, peer, key, now, before);
            &&& first is Err && first->Err_0.ended ==> a.batches == before && a.rest == bytes
                && a.lines == lines && a.close is None
            &&& first is Err && !first->Err_0.ended ==> a.batches == before && a.close is Some
            &&& first is Ok && decoded(first->Ok_0.0, now) is Err ==> a.batches == before
                && a.close is Some
            &&& first is Ok && decoded(first->Ok_0.0, now) is Ok && 0 < first->Ok_0.1
                <= bytes.len() ==> {
                let d = decoded(first->Ok_0.0, now)->Ok_0;
                let b = BatchModel {
                    tag: d.tag,
                    lines: taken(lines, d.entries, key).1,
                    notes: warned(lines, d.entries, key),
                    chunk: d.chunk,
                };
                a == arrived(
                    bytes.skip(first->Ok_0.1 as int),
                    taken(lines, d.entries, key).0,
                    peer,
                    key,
                    now,
                    before.push(b),
                )
            }
        }),
{
}

/// A store that is made for a tag declares the tag, where its container is known
/// that too, and what it was asked to keep, each under its own name.
pub proof fn a_seeded_store_declares_where_it_comes_from(
    tag: Seq<char>,
    container_id: Option<Seq<char>>,
    container_name: Option<Seq<char>>,
    opts: ForwardOpts,
)
    ensures
        ({
            let m = seeded(tag, container_id, container_name, opts);
            &&& m["tag"@] == JsonModel::Text(tag)
            &&& m.contains_key("container_id"@) == (container_id is Some)
            &&& container_id is Some ==> m["container_id"@] == JsonModel::Text(
                container_id->Some_0,
            )
            &&& m.contains_key("container_name"@) == (container_name is Some)
            &&& container_name is Some ==> m["container_name"@] == JsonModel::Text(
                container_name->Some_0,
            )
            &&& m.contains_key("retain"@) == (opts.retain is Some)
            &&& opts.retain is Some ==> m["retain"@] == JsonModel::Text(opts.retain->Some_0@)
            &&& m.contains_key("retain_size"@) == (opts.retain_size is Some)
            &&& opts.retain_size is Some ==> m["retain_size"@] == JsonModel::Text(
                opts.retain_size->Some_0@,
            )
            &&& m.contains_key("index"@) == opts.index
            &&& m["derived_op"@] == JsonModel::Text("forward-intake"@)
            &&& m["wal"@] == JsonModel::Bool(true)
        }),
{
    reveal_strlit("tag");
    reveal_strlit("container_id");
    reveal_strlit("container_name");
    reveal_strlit("retain");
    reveal_strlit("retain_size");
    reveal_strlit("index");
    reveal_strlit("wal");
    reveal_strlit("derived_op");
    assert("tag"@.len() == 3 && "container_id"@.len() == 12 && "container_name"@.len() == 14
        && "retain"@.len() == 6 && "retain_size"@.len() == 11 && "index"@.len() == 5 && "wal"@.len()
        == 3 && "derived_op"@.len() == 10);
    assert("tag"@[0] == 't' && "wal"@[0] == 'w');
}

/// A limit is said of where it is met: too many lines at once, or one that is too
/// long; and nowhere else.
pub proof fn a_limit_is_said_where_it_is_met(
    lines: Seq<PartialModel>,
    record: MsgModel,
    key: Seq<char>,
    i: int,
)
    requires
        text_at(record, "partial_message"@) == Some("true"@),
        text_at(record, "partial_id"@) is Some,
    ensures
        ({
            let id = text_at(record, "partial_id"@)->Some_0;
            let n = payload(record, key).len();
            let known = 0 <= i < lines.len() && lines[i].id == id && forall|j: int|
                0 <= j < lines.len() && j != i ==> (#[trigger] lines[j]).id != id;
            let unknown = forall|j: int| 0 <= j < lines.len() ==> (#[trigger] lines[j]).id != id;
            &&& known ==> (bound_said(lines, record, key) is Some <==> lines[i].bytes.len() + n > 16
                * 1024 * 1024)
            &&& unknown ==> (bound_said(lines, record, key) is Some <==> lines.len() >= 1_000 || n
                > 16 * 1024 * 1024)
        }),
{
    let id = text_at(record, "partial_id"@)->Some_0;
    lemma_line_from(lines, id, 0);
    let k = line_of(lines, id);
    if 0 <= i < lines.len() && lines[i].id == id && k != i && k < lines.len() {
        assert(lines[k].id == id);
    }
}

/// A time of so many seconds, whole or not, is that many times a thousand, kept
/// as finely as it can be; one without end is the last there is, and none is
/// now.
pub proof fn a_fractional_time_is_its_milliseconds(count: nat, scale: int, now: u64)
    ensures
        seconds_ms(None, now) == now,
        seconds_ms(Some(Positive::Infinite), now) == u64::MAX,
        seconds_ms(Some((Positive::Finite { count, scale })), now) == product(count, scale, 1_000),
{
}

/// A value is written as JSON as what it is: texts and bytes as texts, lists and
/// tables as such, and what JSON has no word for as what is known of it.
pub proof fn a_value_is_written_as_json(n: u64, m: i64, b: Seq<u8>, v: Seq<MsgModel>, kind: i8)
    ensures
        compact(MsgModel::Nil) == "null"@,
        compact(MsgModel::Bool(true)) == "true"@,
        compact(MsgModel::Bool(false)) == "false"@,
        compact(MsgModel::Unsigned(n)) == decimal(n as nat),
        m < 0 ==> compact(MsgModel::Negative(m)) == seq!['-'] + decimal((-m) as nat),
        compact(MsgModel::Text(b)) == json_quoted(lossy(b)),
        compact(MsgModel::Binary(b)) == json_quoted(lossy(b)),
        compact(MsgModel::Array(v)) == "["@ + joined(
            Seq::new(v.len(), |i: int| compact(v[i])),
            ","@,
        ) + "]"@,
{
    reveal_strlit("-");
    assert("-"@ =~= seq!['-']);
    assert(crate::msgpack::item_texts(v) =~= Seq::new(v.len(), |i: int| compact(v[i])));
}

} // verus!
