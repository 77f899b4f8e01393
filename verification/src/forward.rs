//! The Forward protocol's receiver: what a message says, what of it is written
//! to which store, and when it is acknowledged.
//!
//! A sender may attach a chunk id to a batch and retry until the id comes
//! back. An id is sent back only once the batch is durable, and never for a
//! batch that has no store: the missing acknowledgement is the refusal, and a
//! sender that waits for it loses nothing.
//!
//! A batch compressed with gzip is refused by name rather than dropped.

use crate::append::{check_policy, policy_outcome, MeasureError};
use crate::bark::{derived_map, derived_of, opt_string, ManifestModel};
use crate::json::{Fields, Json, JsonModel};
use crate::measure::{product, product_of};
use crate::msgpack::{
    compact, field, find_field, first_value, msg_models, one_pair, read_msg, record_str, text_at,
    write_pair, Msg, MsgModel, ReadProblem,
};
use crate::registration::{nothing_said, say};
use crate::text::{debug_text, decimal, number_text, quoted, same, text, texts};
use crate::wire::{lossy, lossy_text};
use vstd::prelude::*;
use vstd::slice::{slice_subrange, slice_to_vec};
use vstd::string::StringExecFns;
use vstd::utf8::encode_utf8;

verus! {

/// One decoded message: the tag it addresses, the times and records it
/// carries, and the chunk id if the sender wants one acknowledged.
#[derive(Debug, PartialEq, Eq)]
pub struct Decoded {
    pub tag: String,
    pub entries: Vec<(u64, Msg)>,
    pub chunk: Option<String>,
}

/// What a decoded message is.
pub struct DecodedModel {
    pub tag: Seq<char>,
    pub entries: Seq<(u64, MsgModel)>,
    pub chunk: Option<Seq<char>>,
}

/// What a list of times and records is.
pub open spec fn entry_models(v: Seq<(u64, Msg)>) -> Seq<(u64, MsgModel)> {
    Seq::new(v.len(), |i: int| (v[i].0, v[i].1@))
}

impl View for Decoded {
    type V = DecodedModel;

    open spec fn view(&self) -> DecodedModel {
        DecodedModel {
            tag: self.tag@,
            entries: entry_models(self.entries@),
            chunk: opt_string(self.chunk),
        }
    }
}

/// Why a message is not taken.
#[derive(Debug, Clone, PartialEq, Eq)]
pub enum DecodeError {
    /// A well-formed but unsupported mode, named so that what was refused can
    /// be told.
    Unsupported(String),
    /// A malformed message. What was taken for the whole message may be only
    /// its beginning, so nothing more can be read from this connection.
    Invalid(String),
}

/// What a `DecodeError` says.
pub enum DecodeProblem {
    Unsupported(Seq<char>),
    Invalid(Seq<char>),
}

impl View for DecodeError {
    type V = DecodeProblem;

    open spec fn view(&self) -> DecodeProblem {
        match *self {
            DecodeError::Unsupported(s) => DecodeProblem::Unsupported(s@),
            DecodeError::Invalid(s) => DecodeProblem::Invalid(s@),
        }
    }
}

impl DecodeProblem {
    /// What the error says.
    pub open spec fn said(self) -> Seq<char> {
        match self {
            DecodeProblem::Unsupported(s) => s + " is not supported"@,
            DecodeProblem::Invalid(s) => s,
        }
    }
}

impl DecodeError {
    /// What the error says.
    pub fn message(&self) -> (r: String)
        ensures
            r@ == self@.said(),
    {
        match self {
            DecodeError::Unsupported(s) => text(s.as_str()).concat(" is not supported"),
            DecodeError::Invalid(s) => text(s.as_str()),
        }
    }
}

// --------------------------------------------------------------------- time

/// What the bits of a binary64 number stand for, where it is above zero.
pub enum Positive {
    /// `count` of two to the `scale`.
    Finite { count: nat, scale: int },
    Infinite,
}

/// The number above zero that 64 bits stand for, if they stand for one.
pub open spec fn double_value(bits: u64) -> Option<Positive> {
    let exponent = bits as int / 0x10_0000_0000_0000 % 0x800;
    let fraction = bits as int % 0x10_0000_0000_0000;
    if bits >= 0x8000_0000_0000_0000 {
        None
    } else if exponent == 0x7ff {
        if fraction == 0 {
            Some(Positive::Infinite)
        } else {
            None
        }
    } else if exponent == 0 {
        if fraction == 0 {
            None
        } else {
            Some(Positive::Finite { count: fraction as nat, scale: -1074 })
        }
    } else {
        Some(
            Positive::Finite {
                count: (0x10_0000_0000_0000 + fraction) as nat,
                scale: exponent - 1075,
            },
        )
    }
}

/// The number above zero that 32 bits stand for, if they stand for one.
pub open spec fn single_value(bits: u32) -> Option<Positive> {
    let exponent = bits as int / 0x80_0000 % 0x100;
    let fraction = bits as int % 0x80_0000;
    if bits >= 0x8000_0000 {
        None
    } else if exponent == 0xff {
        if fraction == 0 {
            Some(Positive::Infinite)
        } else {
            None
        }
    } else if exponent == 0 {
        if fraction == 0 {
            None
        } else {
            Some(Positive::Finite { count: fraction as nat, scale: -149 })
        }
    } else {
        Some(
            Positive::Finite { count: (0x80_0000 + fraction) as nat, scale: exponent - 150 },
        )
    }
}

/// So many seconds in milliseconds, without what is behind the point.
pub open spec fn seconds_ms(v: Option<Positive>, now: u64) -> u64 {
    match v {
        None => now,
        Some(Positive::Infinite) => u64::MAX,
        Some(Positive::Finite { count, scale }) => product(count, scale, 1000),
    }
}

/// The number that four bytes spell, the largest byte first.
pub open spec fn be32(b: Seq<u8>, at: int) -> int {
    b[at] as int * 0x100_0000 + b[at + 1] as int * 0x1_0000 + b[at + 2] as int * 0x100 + b[at
        + 3] as int
}

/// The time a value stands for, in unix milliseconds. Seconds that are whole
/// or not, or the protocol's own extension of seconds and nanoseconds; what is
/// zero, negative or no time at all falls back to now.
pub open spec fn time_ms(v: MsgModel, now: u64) -> u64 {
    match v {
        MsgModel::Unsigned(s) => if s == 0 {
            now
        } else if s * 1000 > u64::MAX {
            u64::MAX
        } else {
            (s * 1000) as u64
        },
        MsgModel::Double { bits, json: _ } => seconds_ms(double_value(bits), now),
        MsgModel::Single { bits, json: _ } => seconds_ms(single_value(bits), now),
        MsgModel::Ext(kind, b) => if kind == 0 && b.len() == 8 && !(be32(b, 0) == 0 && be32(b, 4)
            == 0) {
            (be32(b, 0) * 1000 + be32(b, 4) / 1_000_000) as u64
        } else {
            now
        },
        _ => now,
    }
}

fn double_ms(bits: u64, now: u64) -> (r: u64)
    ensures
        r == seconds_ms(double_value(bits), now),
{
    let exponent: u64 = bits / 0x10_0000_0000_0000 % 0x800;
    let fraction: u64 = bits % 0x10_0000_0000_0000;
    if bits >= 0x8000_0000_0000_0000 {
        now
    } else if exponent == 0x7ff {
        if fraction == 0 {
            u64::MAX
        } else {
            now
        }
    } else if exponent == 0 {
        if fraction == 0 {
            now
        } else {
            product_of(fraction, -1074, 1000)
        }
    } else {
        let scale: i64 = exponent as i64 - 1075;
        let count: u64 = 0x10_0000_0000_0000 + fraction;
        proof {
            lemma_finite(count as nat, scale as int);
        }
        product_of(count, scale, 1000)
    }
}

fn single_ms(bits: u32, now: u64) -> (r: u64)
    ensures
        r == seconds_ms(single_value(bits), now),
{
    let exponent: u32 = bits / 0x80_0000 % 0x100;
    let fraction: u32 = bits % 0x80_0000;
    if bits >= 0x8000_0000 {
        now
    } else if exponent == 0xff {
        if fraction == 0 {
            u64::MAX
        } else {
            now
        }
    } else if exponent == 0 {
        if fraction == 0 {
            now
        } else {
            product_of(fraction as u64, -149, 1000)
        }
    } else {
        let scale: i64 = exponent as i64 - 150;
        let count: u64 = 0x80_0000 + fraction as u64;
        proof {
            lemma_finite(count as nat, scale as int);
        }
        product_of(count, scale, 1000)
    }
}

/// A number of at most 53 bits, scaled by less than two to the 972, is finite.
proof fn lemma_finite(count: nat, scale: int)
    requires
        count < 0x20_0000_0000_0000,
        scale <= 971,
    ensures
        !crate::measure::is_infinite(count, scale),
{
    if scale >= 0 {
        let p = crate::measure::pow2(scale as nat);
        crate::measure::lemma_pow2_pos(scale as nat);
        crate::measure::lemma_pow2_53();
        crate::measure::lemma_pow2_add(53, scale as nat);
        crate::measure::lemma_pow2_mono(53 + scale as nat, 1024);
        assert(count * p < 0x20_0000_0000_0000 * p) by (nonlinear_arith)
            requires
                count < 0x20_0000_0000_0000,
                p > 0,
        ;
    }
}

fn read_be32(b: &Vec<u8>, at: usize) -> (r: u32)
    requires
        at + 4 <= b@.len(),
    ensures
        r == be32(b@, at as int),
{
    let size: usize = b.len();
    b[at] as u32 * 0x100_0000 + b[at + 1] as u32 * 0x1_0000 + b[at + 2] as u32 * 0x100 + b[at
        + 3] as u32
}

/// The time a value stands for, in unix milliseconds; now where it stands for
/// none.
pub fn time_to_ms(v: &Msg, now: u64) -> (r: u64)
    ensures
        r == time_ms(v@, now),
{
    match v {
        Msg::Unsigned(s) => if *s == 0 {
            now
        } else if *s > u64::MAX / 1000 {
            u64::MAX
        } else {
            *s * 1000
        },
        Msg::Double { bits, json: _ } => double_ms(*bits, now),
        Msg::Single { bits, json: _ } => single_ms(*bits, now),
        Msg::Ext(kind, b) => {
            if *kind == 0 && b.len() == 8 {
                let secs: u64 = read_be32(b, 0) as u64;
                let nanos: u64 = read_be32(b, 4) as u64;
                if secs == 0 && nanos == 0 {
                    now
                } else {
                    secs * 1000 + nanos / 1_000_000
                }
            } else {
                now
            }
        },
        _ => now,
    }
}

// ----------------------------------------------------------------- decoding

/// What the second element of a message says of the rest.
#[derive(Debug, Clone, Copy, PartialEq, Eq, Structural)]
pub enum ElemKind {
    Time,
    Array,
    Bytes,
    Other,
}

/// What the second element of a message says of the rest.
pub open spec fn kind_of(v: MsgModel) -> ElemKind {
    match v {
        MsgModel::Array(_) => ElemKind::Array,
        MsgModel::Text(_) | MsgModel::Binary(_) => ElemKind::Bytes,
        MsgModel::Unsigned(_) | MsgModel::Negative(_) | MsgModel::Ext(_, _) => ElemKind::Time,
        MsgModel::Single { .. } | MsgModel::Double { .. } => ElemKind::Time,
        _ => ElemKind::Other,
    }
}

fn classify(v: &Msg) -> (r: ElemKind)
    ensures
        r == kind_of(v@),
{
    match v {
        Msg::Array(_) => ElemKind::Array,
        Msg::Text(_) | Msg::Binary(_) => ElemKind::Bytes,
        Msg::Unsigned(_) | Msg::Negative(_) | Msg::Ext(_, _) => ElemKind::Time,
        Msg::Single { .. } | Msg::Double { .. } => ElemKind::Time,
        _ => ElemKind::Other,
    }
}

/// The text under a key of a message's options, which stand at a place of it.
pub open spec fn option_at(items: Seq<MsgModel>, at: int, key: Seq<char>) -> Option<Seq<char>> {
    if at < items.len() {
        text_at(items[at], key)
    } else {
        None
    }
}

/// One entry: its time and its record.
pub open spec fn timed(pair: MsgModel, now: u64) -> Result<(u64, MsgModel), DecodeProblem> {
    match pair {
        MsgModel::Array(p) => if p.len() < 2 {
            Err(DecodeProblem::Invalid("entry needs [time, record]"@))
        } else {
            Ok((time_ms(p[0], now), p[1]))
        },
        _ => Err(DecodeProblem::Invalid("entry must be [time, record]"@)),
    }
}

/// The entries of a batch: an error where one of them is none.
pub open spec fn all_timed(pairs: Seq<MsgModel>, now: u64) -> Result<
    Seq<(u64, MsgModel)>,
    DecodeProblem,
>
    decreases pairs.len(),
{
    if pairs.len() == 0 {
        Ok(Seq::empty())
    } else {
        match all_timed(pairs.drop_last(), now) {
            Err(e) => Err(e),
            Ok(entries) => match timed(pairs.last(), now) {
                Err(e) => Err(e),
                Ok(entry) => Ok(entries.push(entry)),
            },
        }
    }
}

/// The entries of a blob, after those already read: one value after another.
pub open spec fn blob_timed(b: Seq<u8>, now: u64, read: Seq<(u64, MsgModel)>) -> Result<
    Seq<(u64, MsgModel)>,
    DecodeProblem,
>
    decreases b.len(),
{
    if b.len() == 0 {
        Ok(read)
    } else {
        match first_value(b) {
            Err(e) => Err(DecodeProblem::Invalid("PackedForward blob entry: "@ + e.said)),
            Ok((v, used)) => match timed(v, now) {
                Err(e) => Err(e),
                Ok(entry) => if 0 < used <= b.len() {
                    blob_timed(b.skip(used as int), now, read.push(entry))
                } else {
                    Ok(read.push(entry))
                },
            },
        }
    }
}

/// The bytes of a text or of a run of bytes.
pub open spec fn bytes_in(v: MsgModel) -> Seq<u8> {
    match v {
        MsgModel::Text(b) => b,
        MsgModel::Binary(b) => b,
        _ => Seq::empty(),
    }
}

/// A message's entries: of `[tag, time, record, option?]`, of
/// `[tag, [[time, record], ...], option?]`, or of `[tag, blob, option?]`.
pub open spec fn decoded_entries(items: Seq<MsgModel>, now: u64) -> Result<
    Seq<(u64, MsgModel)>,
    DecodeProblem,
> {
    match kind_of(items[1]) {
        ElemKind::Time => if items.len() < 3 {
            Err(DecodeProblem::Invalid("Message mode needs [tag, time, record]"@))
        } else {
            Ok(seq![(time_ms(items[1], now), items[2])])
        },
        ElemKind::Array => all_timed(items[1]->Array_0, now),
        ElemKind::Bytes => if option_at(items, 2, "compressed"@) == Some("gzip"@) {
            Err(DecodeProblem::Unsupported("CompressedPackedForward (gzip)"@))
        } else {
            blob_timed(bytes_in(items[1]), now, Seq::empty())
        },
        ElemKind::Other => Err(
            DecodeProblem::Invalid(
                "cannot classify message: element 1 is neither a time, an array, nor a string/bin"@,
            ),
        ),
    }
}

/// What a message says.
pub open spec fn decoded(v: MsgModel, now: u64) -> Result<DecodedModel, DecodeProblem> {
    match v {
        MsgModel::Array(items) => if items.len() < 2 {
            Err(
                DecodeProblem::Invalid(
                    "message array has "@ + decimal(items.len())
                        + " element(s), need at least [tag, ...]"@,
                ),
            )
        } else {
            match items[0] {
                MsgModel::Text(tag) => match decoded_entries(items, now) {
                    Err(e) => Err(e),
                    Ok(entries) => Ok(
                        DecodedModel {
                            tag: lossy(tag),
                            entries,
                            chunk: option_at(
                                items,
                                if kind_of(items[1]) is Time {
                                    3
                                } else {
                                    2
                                },
                                "chunk"@,
                            ),
                        },
                    ),
                },
                _ => Err(DecodeProblem::Invalid("tag (element 0) must be a string"@)),
            }
        },
        _ => Err(DecodeProblem::Invalid("top-level msgpack value must be an array"@)),
    }
}

/// What the outcome of reading entries is.
spec fn entries_outcome(r: Result<Vec<(u64, Msg)>, DecodeError>) -> Result<
    Seq<(u64, MsgModel)>,
    DecodeProblem,
> {
    match r {
        Ok(v) => Ok(entry_models(v@)),
        Err(e) => Err(e@),
    }
}

/// The text under a key of the options at a place of a message.
fn option_text(items: &Vec<Msg>, at: usize, key: &str) -> (r: Option<String>)
    ensures
        opt_string(r) == option_at(msg_models(items@), at as int, key@),
{
    if at < items.len() {
        record_str(&items[at], key)
    } else {
        None
    }
}

/// One entry, and the record that `pair` held.
fn decode_time_record_pair(pair: Msg, now: u64) -> (r: Result<(u64, Msg), DecodeError>)
    ensures
        match r {
            Ok(e) => timed(pair@, now) == Ok::<(u64, MsgModel), DecodeProblem>((e.0, e.1@)),
            Err(e) => timed(pair@, now) == Err::<(u64, MsgModel), DecodeProblem>(e@),
        },
{
    match pair {
        Msg::Array(items) => {
            if items.len() < 2 {
                return Err(DecodeError::Invalid(text("entry needs [time, record]")));
            }
            let mut items = items;
            let time: u64 = time_to_ms(&items[0], now);
            let record = items.swap_remove(1);
            Ok((time, record))
        },
        _ => Err(DecodeError::Invalid(text("entry must be [time, record]"))),
    }
}

/// `[tag, [[time, record], ...], option?]`: its entries.
fn decode_forward_mode(pairs: Vec<Msg>, now: u64) -> (r: Result<Vec<(u64, Msg)>, DecodeError>)
    ensures
        entries_outcome(r) == all_timed(msg_models(pairs@), now),
{
    let ghost all = msg_models(pairs@);
    let ghost given = pairs@;
    let mut entries: Vec<(u64, Msg)> = Vec::new();
    proof {
        assert(entry_models(entries@) =~= Seq::empty());
    }
    for pair in it: pairs
        invariant
            it.seq() == given,
            all == msg_models(given),
            all_timed(all.take(it.index() as int), now) == Ok::<
                Seq<(u64, MsgModel)>,
                DecodeProblem,
            >(entry_models(entries@)),
    {
        let ghost k = it.index() as int;
        proof {
            assert(all.take(k + 1).drop_last() =~= all.take(k));
            assert(all.take(k + 1).last() == all[k]);
            assert(all[k] == pair@);
        }
        match decode_time_record_pair(pair, now) {
            Ok(entry) => {
                let ghost was = entries@;
                entries.push(entry);
                proof {
                    assert(entry_models(entries@) =~= entry_models(was).push((entry.0, entry.1@)));
                }
            },
            Err(e) => {
                proof {
                    lemma_all_timed_stops(all, k + 1, now);
                }
                return Err(e);
            },
        }
    }
    proof {
        assert(all.take(given.len() as int) =~= all);
    }
    Ok(entries)
}

/// What fails for the first entries of a batch fails for the batch.
proof fn lemma_all_timed_stops(pairs: Seq<MsgModel>, k: int, now: u64)
    requires
        0 <= k <= pairs.len(),
        all_timed(pairs.take(k), now) is Err,
    ensures
        all_timed(pairs, now) == all_timed(pairs.take(k), now),
    decreases pairs.len(),
{
    if k == pairs.len() {
        assert(pairs.take(k) =~= pairs);
    } else {
        assert(pairs.drop_last().take(k) =~= pairs.take(k));
        lemma_all_timed_stops(pairs.drop_last(), k, now);
    }
}

/// `[tag, blob, option?]`: its entries, one value of the blob after another.
fn decode_packed_forward_mode(blob: Vec<u8>, now: u64) -> (r: Result<
    Vec<(u64, Msg)>,
    DecodeError,
>)
    ensures
        entries_outcome(r) == blob_timed(blob@, now, Seq::empty()),
{
    let mut entries: Vec<(u64, Msg)> = Vec::new();
    let mut at: usize = 0;
    proof {
        assert(entry_models(entries@) =~= Seq::empty());
        assert(blob@.skip(0) =~= blob@);
    }
    while at < blob.len()
        invariant
            at <= blob@.len(),
            blob_timed(blob@.skip(at as int), now, entry_models(entries@)) == blob_timed(
                blob@,
                now,
                Seq::empty(),
            ),
        decreases blob@.len() - at,
    {
        let rest = slice_subrange(blob.as_slice(), at, blob.len());
        proof {
            assert(rest@ =~= blob@.skip(at as int));
        }
        match read_msg(rest) {
            Ok((pair, used)) => match decode_time_record_pair(pair, now) {
                Ok(entry) => {
                    let ghost was = entries@;
                    entries.push(entry);
                    proof {
                        assert(entry_models(entries@) =~= entry_models(was).push(
                            (entry.0, entry.1@),
                        ));
                        assert(rest@.skip(used as int) =~= blob@.skip(at + used));
                    }
                    at = at + used;
                },
                Err(e) => {
                    return Err(e);
                },
            },
            Err(e) => {
                return Err(
                    DecodeError::Invalid(
                        text("PackedForward blob entry: ").concat(e.said.as_str()),
                    ),
                );
            },
        }
    }
    proof {
        assert(blob@.skip(at as int) =~= Seq::empty());
    }
    Ok(entries)
}

/// Decodes one message. A time that is no time becomes `now`.
pub fn decode_message(msg: Msg, now: u64) -> (r: Result<Decoded, DecodeError>)
    ensures
        match r {
            Ok(d) => decoded(msg@, now) == Ok::<DecodedModel, DecodeProblem>(d@),
            Err(e) => decoded(msg@, now) == Err::<DecodedModel, DecodeProblem>(e@),
        },
{
    let mut items = match msg {
        Msg::Array(items) => items,
        _ => {
            return Err(
                DecodeError::Invalid(text("top-level msgpack value must be an array")),
            );
        },
    };
    let ghost all = msg_models(items@);
    let size: usize = items.len();
    if size < 2 {
        return Err(
            DecodeError::Invalid(
                text("message array has ").concat(number_text(size as u64).as_str()).concat(
                    " element(s), need at least [tag, ...]",
                ),
            ),
        );
    }
    let tag = match &items[0] {
        Msg::Text(b) => lossy_text(b.as_slice()),
        _ => {
            return Err(DecodeError::Invalid(text("tag (element 0) must be a string")));
        },
    };
    proof {
        assert(all[0] == items@[0]@);
        assert(all[1] == items@[1]@);
    }
    match classify(&items[1]) {
        ElemKind::Time => {
            if size < 3 {
                return Err(
                    DecodeError::Invalid(text("Message mode needs [tag, time, record]")),
                );
            }
            let chunk = option_text(&items, 3, "chunk");
            let time: u64 = time_to_ms(&items[1], now);
            let record = items.swap_remove(2);
            let mut entries: Vec<(u64, Msg)> = Vec::new();
            entries.push((time, record));
            proof {
                assert(all[2] == record@);
                assert(entry_models(entries@) =~= seq![(time, record@)]);
            }
            Ok(Decoded { tag, entries, chunk })
        },
        ElemKind::Array => {
            let chunk = option_text(&items, 2, "chunk");
            match items.swap_remove(1) {
                Msg::Array(pairs) => match decode_forward_mode(pairs, now) {
                    Ok(entries) => Ok(Decoded { tag, entries, chunk }),
                    Err(e) => Err(e),
                },
                _ => Err(DecodeError::Invalid(text(""))),
            }
        },
        ElemKind::Bytes => {
            if let Some(method) = option_text(&items, 2, "compressed") {
                if same(method.as_str(), "gzip") {
                    return Err(DecodeError::Unsupported(text("CompressedPackedForward (gzip)")));
                }
            }
            let chunk = option_text(&items, 2, "chunk");
            let blob = match items.swap_remove(1) {
                Msg::Text(b) => b,
                Msg::Binary(b) => b,
                _ => Vec::new(),
            };
            match decode_packed_forward_mode(blob, now) {
                Ok(entries) => Ok(Decoded { tag, entries, chunk }),
                Err(e) => Err(e),
            }
        },
        ElemKind::Other => Err(
            DecodeError::Invalid(
                text(
                    "cannot classify message: element 1 is neither a time, an array, nor a string/bin",
                ),
            ),
        ),
    }
}

// ------------------------------------------------------------------ payload

/// A record's line: what stands under the payload key, where that is a text,
/// else the whole record as compact JSON.
pub open spec fn payload(record: MsgModel, key: Seq<char>) -> Seq<u8> {
    match field(record, key) {
        Some(MsgModel::Text(b)) => b,
        _ => encode_utf8(compact(record)),
    }
}

/// Bytes that end in a newline: with one more where they did not.
pub open spec fn lined(b: Seq<u8>) -> Seq<u8> {
    if b.len() > 0 && b.last() == 10 {
        b
    } else {
        b.push(10)
    }
}

/// A record's line, without a newline of its own, so that fragments can be
/// joined before one is put at the end.
pub fn payload_no_newline(record: &Msg, payload_key: &str) -> (r: Vec<u8>)
    ensures
        r@ == payload(record@, payload_key@),
{
    if let Some(v) = find_field(record, payload_key) {
        if let Msg::Text(b) = v {
            return slice_to_vec(b.as_slice());
        }
    }
    let json = record.json();
    slice_to_vec(json.as_str().as_bytes())
}

/// The bytes, with a newline at the end where they had none.
pub fn with_trailing_newline(bytes: Vec<u8>) -> (r: Vec<u8>)
    ensures
        r@ == lined(bytes@),
{
    let mut bytes = bytes;
    let size: usize = bytes.len();
    if size == 0 || bytes[size - 1] != 10 {
        bytes.push(10);
    }
    bytes
}

/// Whether a record is one fragment of a longer line.
pub open spec fn partial(record: MsgModel) -> bool {
    text_at(record, "partial_message"@) == Some("true"@)
}

/// Whether a record is the last fragment of its line.
pub open spec fn last_fragment(record: MsgModel) -> bool {
    text_at(record, "partial_last"@) == Some("true"@)
}

fn says_true(record: &Msg, key: &str) -> (r: bool)
    ensures
        r == (text_at(record@, key@) == Some("true"@)),
{
    match record_str(record, key) {
        Some(t) => same(t.as_str(), "true"),
        None => false,
    }
}

fn is_partial(record: &Msg) -> (r: bool)
    ensures
        r == partial(record@),
{
    says_true(record, "partial_message")
}

// --------------------------------------------------------------- reassembly

/// How long a line may grow before what there is of it is let go.
pub const PARTIAL_MAX_BYTES: usize = 16_777_216;

/// How many lines may be incomplete at once.
pub const PARTIAL_MAX_OUTSTANDING: usize = 1000;

/// A line that is not complete: the time of its first fragment, and its
/// fragments in the order they arrived.
struct PartialBuf {
    id: String,
    first_time_ms: u64,
    bytes: Vec<u8>,
}

/// What an incomplete line is.
pub struct PartialModel {
    pub id: Seq<char>,
    pub first_time_ms: u64,
    pub bytes: Seq<u8>,
}

spec fn partial_models(v: Seq<PartialBuf>) -> Seq<PartialModel> {
    Seq::new(
        v.len(),
        |i: int|
            PartialModel {
                id: v[i].id@,
                first_time_ms: v[i].first_time_ms,
                bytes: v[i].bytes@,
            },
    )
}

/// Which incomplete line has an id, from the `i`th on; how many there are
/// where none has.
pub open spec fn line_from(lines: Seq<PartialModel>, id: Seq<char>, i: int) -> int
    decreases lines.len() - i,
{
    if i >= lines.len() || lines[i].id == id {
        i
    } else {
        line_from(lines, id, i + 1)
    }
}

/// Which incomplete line has an id.
pub open spec fn line_of(lines: Seq<PartialModel>, id: Seq<char>) -> int {
    line_from(lines, id, 0)
}

/// Whether lines are within the bounds: each id once, so many at most, and no
/// line too long.
pub open spec fn bounded(lines: Seq<PartialModel>) -> bool {
    &&& lines.len() <= PARTIAL_MAX_OUTSTANDING
    &&& forall|i: int, j: int|
        0 <= i < j < lines.len() ==> (#[trigger] lines[i]).id != (#[trigger] lines[j]).id
    &&& forall|i: int|
        0 <= i < lines.len() ==> (#[trigger] lines[i]).bytes.len() <= PARTIAL_MAX_BYTES
}

/// What is let go at a record, and the lines that are left incomplete. Neither
/// a record that is no fragment nor one without an id waits for anything, nor
/// does a new line while too many are incomplete.
pub open spec fn fed(
    lines: Seq<PartialModel>,
    time_ms: u64,
    record: MsgModel,
    key: Seq<char>,
) -> (Seq<PartialModel>, Option<(u64, Seq<u8>)>) {
    let part = payload(record, key);
    match text_at(record, "partial_id"@) {
        Some(id) if partial(record) => {
            let k = line_of(lines, id);
            if k >= lines.len() && lines.len() >= PARTIAL_MAX_OUTSTANDING {
                (lines, Some((time_ms, lined(part))))
            } else {
                let (first, bytes) = if k < lines.len() {
                    (lines[k].first_time_ms, lines[k].bytes + part)
                } else {
                    (time_ms, part)
                };
                if bytes.len() > PARTIAL_MAX_BYTES || last_fragment(record) {
                    (
                        if k < lines.len() {
                            lines.remove(k)
                        } else {
                            lines
                        },
                        Some((first, lined(bytes))),
                    )
                } else {
                    let line = PartialModel { id, first_time_ms: first, bytes };
                    (
                        if k < lines.len() {
                            lines.update(k, line)
                        } else {
                            lines.push(line)
                        },
                        None,
                    )
                }
            }
        },
        _ => (lines, Some((time_ms, lined(part)))),
    }
}

/// What is said where a bound lets a fragment go before its line is complete.
pub open spec fn bound_said(lines: Seq<PartialModel>, record: MsgModel, key: Seq<char>) -> Option<
    Seq<char>,
> {
    match text_at(record, "partial_id"@) {
        Some(id) if partial(record) => {
            let k = line_of(lines, id);
            let so_far = if k < lines.len() {
                lines[k].bytes.len()
            } else {
                0
            };
            if k >= lines.len() && lines.len() >= PARTIAL_MAX_OUTSTANDING {
                Some(
                    "timberfs: forward-intake: "@ + decimal(PARTIAL_MAX_OUTSTANDING as nat)
                        + " outstanding partial message ids reached; emitting "@ + id
                        + " unbuffered"@,
                )
            } else if so_far + payload(record, key).len() > PARTIAL_MAX_BYTES {
                Some(
                    "timberfs: forward-intake: partial message "@ + id + " exceeded "@ + decimal(
                        PARTIAL_MAX_BYTES as nat,
                    ) + " bytes; emitting what's buffered and resetting it"@,
                )
            } else {
                None
            }
        },
        _ => None,
    }
}

/// Puts the fragments of split lines together, for one connection: they are
/// kept by their id, in the order they arrive, and let go as one line at the
/// last. A sender that never completes a line, or opens too many at once,
/// cannot grow this without bound.
pub struct PartialReassembler {
    buffers: Vec<PartialBuf>,
}

impl View for PartialReassembler {
    type V = Seq<PartialModel>;

    closed spec fn view(&self) -> Seq<PartialModel> {
        partial_models(self.buffers@)
    }
}

impl PartialReassembler {
    /// Whether what is kept is within the bounds.
    pub open spec fn wf(&self) -> bool {
        bounded(self@)
    }

    /// No line begun.
    pub fn new() -> (r: PartialReassembler)
        ensures
            r@ == Seq::<PartialModel>::empty(),
            r.wf(),
    {
        let r = PartialReassembler { buffers: Vec::new() };
        proof {
            assert(r@ =~= Seq::<PartialModel>::empty());
        }
        r
    }

    /// How many lines are incomplete.
    pub fn outstanding(&self) -> (r: usize)
        ensures
            r == self@.len(),
    {
        self.buffers.len()
    }

    /// Whether a line with an id is incomplete.
    pub fn holds(&self, id: &str) -> (r: bool)
        ensures
            r == (line_of(self@, id@) < self@.len()),
    {
        self.index_of(id) < self.buffers.len()
    }

    fn index_of(&self, id: &str) -> (k: usize)
        ensures
            k == line_of(self@, id@),
            k <= self@.len(),
    {
        let mut k: usize = 0;
        while k < self.buffers.len()
            invariant
                k <= self@.len(),
                self@ == partial_models(self.buffers@),
                line_of(self@, id@) == line_from(self@, id@, k as int),
            decreases self@.len() - k,
        {
            if same(self.buffers[k].id.as_str(), id) {
                return k;
            }
            k = k + 1;
        }
        k
    }

    /// What is to be said of a record that is about to be taken, where a bound
    /// lets it go before its line is complete.
    pub fn warning(&self, record: &Msg, payload_key: &str) -> (r: Option<String>)
        requires
            self.wf(),
        ensures
            opt_string(r) == bound_said(self@, record@, payload_key@),
    {
        if !is_partial(record) {
            return None;
        }
        let id = match record_str(record, "partial_id") {
            Some(id) => id,
            None => {
                return None;
            },
        };
        let k: usize = self.index_of(id.as_str());
        let known = k < self.buffers.len();
        if !known && self.buffers.len() >= PARTIAL_MAX_OUTSTANDING {
            return Some(
                text("timberfs: forward-intake: ").concat(
                    number_text(PARTIAL_MAX_OUTSTANDING as u64).as_str(),
                ).concat(" outstanding partial message ids reached; emitting ").concat(
                    id.as_str(),
                ).concat(" unbuffered"),
            );
        }
        let so_far: usize = if known {
            self.buffers[k].bytes.len()
        } else {
            0
        };
        proof {
            if known {
                assert(self@[k as int].bytes.len() <= PARTIAL_MAX_BYTES);
            }
        }
        let part = payload_no_newline(record, payload_key);
        if part.len() > PARTIAL_MAX_BYTES - so_far {
            return Some(
                text("timberfs: forward-intake: partial message ").concat(id.as_str()).concat(
                    " exceeded ",
                ).concat(number_text(PARTIAL_MAX_BYTES as u64).as_str()).concat(
                    " bytes; emitting what's buffered and resetting it",
                ),
            );
        }
        None
    }

    /// Takes one record; gives the lines that are complete with it, each with
    /// its time and a newline at its end.
    pub fn feed(&mut self, time_ms: u64, record: &Msg, payload_key: &str) -> (r: Vec<
        (u64, Vec<u8>),
    >)
        requires
            old(self).wf(),
        ensures
            final(self).wf(),
            final(self)@ == fed(old(self)@, time_ms, record@, payload_key@).0,
            match fed(old(self)@, time_ms, record@, payload_key@).1 {
                Some(line) => r@.len() == 1 && r@[0].0 == line.0 && r@[0].1@ == line.1,
                None => r@.len() == 0,
            },
    {
        let ghost was = self@;
        let mut out: Vec<(u64, Vec<u8>)> = Vec::new();
        let part = payload_no_newline(record, payload_key);
        let whole = !is_partial(record);
        let named = record_str(record, "partial_id");
        if whole || named.is_none() {
            out.push((time_ms, with_trailing_newline(part)));
            return out;
        }
        let id = named.unwrap();
        let k: usize = self.index_of(id.as_str());
        proof {
            lemma_line_of(was, id@, 0);
        }
        let known = k < self.buffers.len();
        if !known && self.buffers.len() >= PARTIAL_MAX_OUTSTANDING {
            out.push((time_ms, with_trailing_newline(part)));
            return out;
        }
        let is_last = says_true(record, "partial_last");
        let (first, bytes) = if known {
            let line = self.buffers.remove(k);
            let mut bytes = line.bytes;
            bytes.extend_from_slice(part.as_slice());
            proof {
                assert(bytes@ =~= was[k as int].bytes + part@);
                assert(self@ =~= was.remove(k as int));
            }
            (line.first_time_ms, bytes)
        } else {
            (time_ms, part)
        };
        if bytes.len() > PARTIAL_MAX_BYTES || is_last {
            out.push((first, with_trailing_newline(bytes)));
            return out;
        }
        self.buffers.insert(k, PartialBuf { id, first_time_ms: first, bytes });
        proof {
            let line = PartialModel { id: id@, first_time_ms: first, bytes: bytes@ };
            if known {
                assert(self@ =~= was.update(k as int, line));
            } else {
                assert(self@ =~= was.push(line));
            }
        }
        out
    }
}

/// The line with an id is the first that has it.
pub proof fn lemma_line_of(lines: Seq<PartialModel>, id: Seq<char>, i: int)
    requires
        0 <= i <= lines.len(),
    ensures
        ({
            let k = line_from(lines, id, i);
            &&& i <= k <= lines.len()
            &&& k < lines.len() ==> lines[k].id == id
            &&& forall|j: int| i <= j < k ==> (#[trigger] lines[j]).id != id
        }),
    decreases lines.len() - i,
{
    if i < lines.len() && lines[i].id != id {
        lemma_line_of(lines, id, i + 1);
    }
}

// ------------------------------------------------------------- one message

/// One line to write to the message's store, with what the record says of the
/// container it came from.
#[derive(Debug, Clone, PartialEq, Eq)]
pub struct Line {
    pub time_ms: u64,
    pub payload: Vec<u8>,
    pub container_id: Option<String>,
    pub container_name: Option<String>,
}

/// What a line is.
pub struct LineModel {
    pub time_ms: u64,
    pub payload: Seq<u8>,
    pub container_id: Option<Seq<char>>,
    pub container_name: Option<Seq<char>>,
}

impl View for Line {
    type V = LineModel;

    open spec fn view(&self) -> LineModel {
        LineModel {
            time_ms: self.time_ms,
            payload: self.payload@,
            container_id: opt_string(self.container_id),
            container_name: opt_string(self.container_name),
        }
    }
}

/// What a list of lines is.
pub open spec fn line_models(v: Seq<Line>) -> Seq<LineModel> {
    Seq::new(v.len(), |i: int| v[i]@)
}

/// The lines that a message's records complete, and those left incomplete.
pub open spec fn taken(
    lines: Seq<PartialModel>,
    entries: Seq<(u64, MsgModel)>,
    key: Seq<char>,
) -> (Seq<PartialModel>, Seq<LineModel>)
    decreases entries.len(),
{
    if entries.len() == 0 {
        (lines, Seq::empty())
    } else {
        let (left, out) = taken(lines, entries.drop_last(), key);
        let (time_ms, record) = entries.last();
        let (after, complete) = fed(left, time_ms, record, key);
        match complete {
            None => (after, out),
            Some((time_ms, payload)) => (
                after,
                out.push(
                    LineModel {
                        time_ms,
                        payload,
                        container_id: text_at(record, "container_id"@),
                        container_name: text_at(record, "container_name"@),
                    },
                ),
            ),
        }
    }
}

/// What is said of a message's records, where bounds let fragments go.
pub open spec fn warned(
    lines: Seq<PartialModel>,
    entries: Seq<(u64, MsgModel)>,
    key: Seq<char>,
) -> Seq<Seq<char>>
    decreases entries.len(),
{
    if entries.len() == 0 {
        Seq::empty()
    } else {
        let front = entries.drop_last();
        let before = warned(lines, front, key);
        match bound_said(taken(lines, front, key).0, entries.last().1, key) {
            Some(s) => before.push(s),
            None => before,
        }
    }
}

/// The lines of a message, in the order they are to be written, and what is to
/// be said of its records.
pub fn take_message(
    reassembler: &mut PartialReassembler,
    decoded: &Decoded,
    payload_key: &str,
) -> (r: (Vec<Line>, Vec<String>))
    requires
        old(reassembler).wf(),
    ensures
        final(reassembler).wf(),
        (final(reassembler)@, line_models(r.0@)) == taken(
            old(reassembler)@,
            decoded@.entries,
            payload_key@,
        ),
        texts(r.1@) == warned(old(reassembler)@, decoded@.entries, payload_key@),
{
    let ghost all = decoded@.entries;
    let ghost was = reassembler@;
    let mut out: Vec<Line> = Vec::new();
    let mut notes = nothing_said();
    let mut i: usize = 0;
    proof {
        assert(line_models(out@) =~= Seq::empty());
    }
    while i < decoded.entries.len()
        invariant
            i <= decoded.entries@.len(),
            all == entry_models(decoded.entries@),
            reassembler.wf(),
            (reassembler@, line_models(out@)) == taken(was, all.take(i as int), payload_key@),
            texts(notes@) == warned(was, all.take(i as int), payload_key@),
        decreases decoded.entries@.len() - i,
    {
        let entry = &decoded.entries[i];
        proof {
            assert(all.take(i + 1).drop_last() =~= all.take(i as int));
            assert(all.take(i + 1).last() == (entry.0, entry.1@));
        }
        if let Some(s) = reassembler.warning(&entry.1, payload_key) {
            say(&mut notes, s);
        }
        let mut done = reassembler.feed(entry.0, &entry.1, payload_key);
        let complete = done.pop();
        if let Some((time_ms, payload)) = complete {
            let ghost before = out@;
            let line = Line {
                time_ms,
                payload,
                container_id: record_str(&entry.1, "container_id"),
                container_name: record_str(&entry.1, "container_name"),
            };
            out.push(line);
            proof {
                assert(line_models(out@) =~= line_models(before).push(line@));
            }
        }
        i = i + 1;
    }
    proof {
        assert(all.take(i as int) =~= all);
    }
    (out, notes)
}

/// What a connection's bytes come to.
#[derive(Debug, PartialEq, Eq)]
pub enum Next {
    /// The message is not complete.
    More,
    /// A message, and how many bytes it took.
    Message(Decoded, usize),
    /// Nothing more can be read from this connection; what is to be said.
    Close(String),
}

/// What a connection's bytes come to.
pub enum NextModel {
    More,
    Message(DecodedModel, nat),
    Close(Seq<char>),
}

impl View for Next {
    type V = NextModel;

    open spec fn view(&self) -> NextModel {
        match *self {
            Next::More => NextModel::More,
            Next::Message(d, used) => NextModel::Message(d@, used as nat),
            Next::Close(s) => NextModel::Close(s@),
        }
    }
}

/// What is said where a connection is closed on a sender.
pub open spec fn closing_note(peer: Seq<char>, why: Seq<char>, desynced: bool) -> Seq<char> {
    "timberfs: forward-intake: "@ + peer + ": "@ + why + "; closing connection"@ + (if desynced {
        " (a desynced msgpack stream is unrecoverable)"@
    } else {
        ""@
    })
}

fn closing(peer: &str, why: &str, desynced: bool) -> (r: String)
    ensures
        r@ == closing_note(peer@, why@, desynced),
{
    let r = text("timberfs: forward-intake: ").concat(peer).concat(": ").concat(why).concat(
        "; closing connection",
    );
    if desynced {
        r.concat(" (a desynced msgpack stream is unrecoverable)")
    } else {
        r.concat("")
    }
}

/// What the first value of a connection's bytes comes to. What is refused
/// closes the connection; what is malformed may have desynced it.
pub open spec fn next_of(
    first: Result<(MsgModel, nat), ReadProblem>,
    peer: Seq<char>,
    now: u64,
) -> NextModel {
    match first {
        Err(e) => if e.ended {
            NextModel::More
        } else {
            NextModel::Close(closing_note(peer, "decode error ("@ + e.said + ")"@, true))
        },
        Ok((v, used)) => match decoded(v, now) {
            Ok(d) => NextModel::Message(d, used),
            Err(e) => NextModel::Close(closing_note(peer, e.said(), e is Invalid)),
        },
    }
}

/// Reads the message that a connection's bytes start with.
pub fn next_message(bytes: &[u8], peer: &str, now: u64) -> (r: Next)
    ensures
        r@ == next_of(first_value(bytes@), peer@, now),
        r matches Next::Message(_, used) ==> 0 < used <= bytes@.len(),
{
    match read_msg(bytes) {
        Ok((msg, used)) => match decode_message(msg, now) {
            Ok(d) => Next::Message(d, used),
            Err(e) => {
                let desynced = match &e {
                    DecodeError::Unsupported(_) => false,
                    DecodeError::Invalid(_) => true,
                };
                Next::Close(closing(peer, e.message().as_str(), desynced))
            },
        },
        Err(e) => {
            if e.ended {
                Next::More
            } else {
                Next::Close(
                    closing(
                        peer,
                        text("decode error (").concat(e.said.as_str()).concat(")").as_str(),
                        true,
                    ),
                )
            }
        },
    }
}

/// A message's lines, the store's tag they are for, what is to be said of them,
/// and the id that is to be acknowledged.
#[derive(Debug, Clone, PartialEq, Eq)]
pub struct Batch {
    pub tag: String,
    pub lines: Vec<Line>,
    pub notes: Vec<String>,
    pub chunk: Option<String>,
}

/// What a batch is.
pub struct BatchModel {
    pub tag: Seq<char>,
    pub lines: Seq<LineModel>,
    pub notes: Seq<Seq<char>>,
    pub chunk: Option<Seq<char>>,
}

impl View for Batch {
    type V = BatchModel;

    open spec fn view(&self) -> BatchModel {
        BatchModel {
            tag: self.tag@,
            lines: line_models(self.lines@),
            notes: texts(self.notes@),
            chunk: opt_string(self.chunk),
        }
    }
}

/// What a list of batches is.
pub open spec fn batch_models(v: Seq<Batch>) -> Seq<BatchModel> {
    Seq::new(v.len(), |i: int| v[i]@)
}

/// What a connection's bytes come to: the batches of the messages that are
/// complete, what is left of the bytes and of the lines, and what is said
/// where the connection is to be closed.
pub struct Arrival {
    pub batches: Seq<BatchModel>,
    pub rest: Seq<u8>,
    pub lines: Seq<PartialModel>,
    pub close: Option<Seq<char>>,
}

/// What a connection's bytes come to, message after message, after the batches
/// that came before. Nothing is read past a message that is refused.
pub open spec fn arrived(
    bytes: Seq<u8>,
    lines: Seq<PartialModel>,
    peer: Seq<char>,
    key: Seq<char>,
    now: u64,
    before: Seq<BatchModel>,
) -> Arrival
    decreases bytes.len(),
{
    match next_of(first_value(bytes), peer, now) {
        NextModel::More => Arrival { batches: before, rest: bytes, lines, close: None },
        NextModel::Close(s) => Arrival { batches: before, rest: bytes, lines, close: Some(s) },
        NextModel::Message(d, used) => {
            let (left, out) = taken(lines, d.entries, key);
            let notes = warned(lines, d.entries, key);
            let batches = before.push(
                BatchModel { tag: d.tag, lines: out, notes, chunk: d.chunk },
            );
            if 0 < used <= bytes.len() {
                arrived(bytes.skip(used as int), left, peer, key, now, batches)
            } else {
                Arrival { batches, rest: bytes, lines: left, close: None }
            }
        },
    }
}

/// One connection: the bytes of a message that is not complete, and the lines
/// that are not.
pub struct Connection {
    pub bytes: Vec<u8>,
    pub reassembler: PartialReassembler,
}

impl Connection {
    /// A connection that nothing came from yet.
    pub fn new() -> (r: Connection)
        ensures
            r.bytes@ == Seq::<u8>::empty(),
            r.reassembler@ == Seq::<PartialModel>::empty(),
            r.reassembler.wf(),
    {
        Connection { bytes: Vec::new(), reassembler: PartialReassembler::new() }
    }

    /// Takes what came, and gives the batches that are complete with it, in
    /// the order they came, and what is to be said where the connection is to
    /// be closed.
    pub fn receive(&mut self, more: &[u8], peer: &str, payload_key: &str, now: u64) -> (r: (
        Vec<Batch>,
        Option<String>,
    ))
        requires
            old(self).reassembler.wf(),
        ensures
            final(self).reassembler.wf(),
            ({
                let a = arrived(
                    old(self).bytes@ + more@,
                    old(self).reassembler@,
                    peer@,
                    payload_key@,
                    now,
                    Seq::empty(),
                );
                &&& batch_models(r.0@) == a.batches
                &&& opt_string(r.1) == a.close
                &&& final(self).bytes@ == a.rest
                &&& final(self).reassembler@ == a.lines
            }),
    {
        let ghost start = self.bytes@ + more@;
        let mut all: Vec<u8> = Vec::new();
        core::mem::swap(&mut all, &mut self.bytes);
        all.extend_from_slice(more);
        let mut out: Vec<Batch> = Vec::new();
        let mut at: usize = 0;
        let mut close: Option<String> = None;
        proof {
            assert(all@ =~= start);
            assert(all@.skip(0) =~= all@);
            assert(batch_models(out@) =~= Seq::<BatchModel>::empty());
        }
        let ghost goal = arrived(
            start,
            self.reassembler@,
            peer@,
            payload_key@,
            now,
            Seq::empty(),
        );
        loop
            invariant_except_break
                close is None,
                arrived(
                    all@.skip(at as int),
                    self.reassembler@,
                    peer@,
                    payload_key@,
                    now,
                    batch_models(out@),
                ) == goal,
            invariant
                at <= all@.len(),
                self.reassembler.wf(),
            ensures
                goal == (Arrival {
                    batches: batch_models(out@),
                    rest: all@.skip(at as int),
                    lines: self.reassembler@,
                    close: opt_string(close),
                }),
            decreases all@.len() - at,
        {
            let rest = slice_subrange(all.as_slice(), at, all.len());
            proof {
                assert(rest@ =~= all@.skip(at as int));
            }
            match next_message(rest, peer, now) {
                Next::More => {
                    break;
                },
                Next::Close(s) => {
                    close = Some(s);
                    break;
                },
                Next::Message(d, used) => {
                    let (lines, notes) = take_message(&mut self.reassembler, &d, payload_key);
                    let ghost was = out@;
                    let batch = Batch { tag: d.tag, lines, notes, chunk: d.chunk };
                    out.push(batch);
                    proof {
                        assert(batch_models(out@) =~= batch_models(was).push(batch@));
                        assert(rest@.skip(used as int) =~= all@.skip(at + used));
                    }
                    at = at + used;
                },
            }
        }
        let left = slice_subrange(all.as_slice(), at, all.len());
        self.bytes = slice_to_vec(left);
        proof {
            assert(self.bytes@ =~= all@.skip(at as int));
        }
        (out, close)
    }
}

// --------------------------------------------------------- acknowledgements

/// A chunk id that waits for its batch to be durable.
#[derive(Debug, Clone, PartialEq, Eq)]
pub struct PendingAck {
    /// The store that the batch went to.
    pub store: String,
    pub chunk: String,
    /// The connection that the batch came from.
    pub conn_id: u64,
}

/// What a pending id is.
pub struct PendingModel {
    pub store: Seq<char>,
    pub chunk: Seq<char>,
    pub conn_id: u64,
}

impl View for PendingAck {
    type V = PendingModel;

    open spec fn view(&self) -> PendingModel {
        PendingModel { store: self.store@, chunk: self.chunk@, conn_id: self.conn_id }
    }
}

/// What a list of pending ids is.
pub open spec fn pending_models(v: Seq<PendingAck>) -> Seq<PendingModel> {
    Seq::new(v.len(), |i: int| v[i]@)
}

/// The ids that wait for a store, in the order they came.
pub open spec fn due(pending: Seq<PendingModel>, store: Seq<char>) -> Seq<PendingModel>
    decreases pending.len(),
{
    if pending.len() == 0 {
        pending
    } else if pending.last().store == store {
        due(pending.drop_last(), store).push(pending.last())
    } else {
        due(pending.drop_last(), store)
    }
}

/// The ids that wait for any other store.
pub open spec fn not_due(pending: Seq<PendingModel>, store: Seq<char>) -> Seq<PendingModel>
    decreases pending.len(),
{
    if pending.len() == 0 {
        pending
    } else if pending.last().store != store {
        not_due(pending.drop_last(), store).push(pending.last())
    } else {
        not_due(pending.drop_last(), store)
    }
}

/// The ids that any other connection waits for.
pub open spec fn of_others(pending: Seq<PendingModel>, conn_id: u64) -> Seq<PendingModel>
    decreases pending.len(),
{
    if pending.len() == 0 {
        pending
    } else if pending.last().conn_id != conn_id {
        of_others(pending.drop_last(), conn_id).push(pending.last())
    } else {
        of_others(pending.drop_last(), conn_id)
    }
}

/// The chunk ids that wait to be acknowledged.
pub struct Acks {
    pending: Vec<PendingAck>,
}

impl View for Acks {
    type V = Seq<PendingModel>;

    closed spec fn view(&self) -> Seq<PendingModel> {
        pending_models(self.pending@)
    }
}

impl Acks {
    /// Nothing waits.
    pub fn new() -> (r: Acks)
        ensures
            r@ == Seq::<PendingModel>::empty(),
    {
        let r = Acks { pending: Vec::new() };
        proof {
            assert(r@ =~= Seq::<PendingModel>::empty());
        }
        r
    }

    /// Notes the id that a message asks to have acknowledged; tells whether
    /// there is one to complete. An id is noted only where the message's store
    /// is open: what has no store is never acknowledged.
    pub fn register(
        &mut self,
        chunk: &Option<String>,
        store: &str,
        store_open: bool,
        conn_id: u64,
    ) -> (r: bool)
        ensures
            r == (chunk is Some && store_open),
            final(self)@ == (if chunk is Some && store_open {
                old(self)@.push(
                    PendingModel { store: store@, chunk: chunk->Some_0@, conn_id },
                )
            } else {
                old(self)@
            }),
            r ==> final(self)@.len() == old(self)@.len() + 1 && final(self)@.last().store == store@
                && final(self)@.last().conn_id == conn_id && final(self)@.last().chunk == chunk->Some_0@,
            !r ==> final(self)@ == old(self)@,
    {
        let ghost was = self@;
        match chunk {
            Some(id) => {
                if store_open {
                    let ack = PendingAck { store: text(store), chunk: text(id.as_str()), conn_id };
                    self.pending.push(ack);
                    proof {
                        assert(self@ =~= was.push(ack@));
                    }
                    true
                } else {
                    false
                }
            },
            None => false,
        }
    }

    /// Whether any id waits for a store.
    pub fn waits(&self, store: &str) -> (r: bool)
        ensures
            r == (due(self@, store@).len() > 0),
    {
        let mut n: usize = self.pending.len();
        proof {
            assert(self@.take(n as int) =~= self@);
        }
        while n > 0
            invariant
                n <= self.pending@.len(),
                self@ == pending_models(self.pending@),
                due(self@.take(n as int), store@).len() > 0 <==> due(self@, store@).len() > 0,
            decreases n,
        {
            proof {
                assert(self@.take(n as int).drop_last() =~= self@.take(n - 1));
            }
            if same(self.pending[n - 1].store.as_str(), store) {
                return true;
            }
            n = n - 1;
        }
        false
    }

    /// The ids that may be sent back now. Where the store's data is durable,
    /// all that wait for it, and they wait no longer; else none, and all of
    /// them stay.
    pub fn drain(&mut self, store: &str, durable: bool) -> (r: Vec<PendingAck>)
        ensures
            pending_models(r@) == (if durable {
                due(old(self)@, store@)
            } else {
                Seq::<PendingModel>::empty()
            }),
            final(self)@ == (if durable {
                not_due(old(self)@, store@)
            } else {
                old(self)@
            }),
            r@.len() + final(self)@.len() == old(self)@.len(),
            !durable ==> r@.len() == 0 && final(self)@ == old(self)@,
            forall|i: int| 0 <= i < r@.len() ==> (#[trigger] r@[i]).store@ == store@,
    {
        let ghost was = self@;
        let mut out: Vec<PendingAck> = Vec::new();
        proof {
            assert(pending_models(out@) =~= Seq::<PendingModel>::empty());
        }
        if !durable {
            return out;
        }
        let mut left: Vec<PendingAck> = Vec::new();
        let mut all: Vec<PendingAck> = Vec::new();
        core::mem::swap(&mut all, &mut self.pending);
        let ghost given = all@;
        proof {
            assert(pending_models(left@) =~= Seq::<PendingModel>::empty());
            assert(was.take(0) =~= Seq::<PendingModel>::empty());
        }
        for ack in it: all
            invariant
                it.seq() == given,
                was == pending_models(given),
                pending_models(out@) == due(was.take(it.index() as int), store@),
                pending_models(left@) == not_due(was.take(it.index() as int), store@),
        {
            let ghost k = it.index() as int;
            let ghost ack_before = ack@;
            let ghost o = out@;
            let ghost l = left@;
            proof {
                assert(was.take(k + 1).drop_last() =~= was.take(k));
                assert(was.take(k + 1).last() == ack@);
            }
            if same(ack.store.as_str(), store) {
                out.push(ack);
                proof {
                    assert(pending_models(out@) =~= pending_models(o).push(ack_before));
                }
            } else {
                left.push(ack);
                proof {
                    assert(pending_models(left@) =~= pending_models(l).push(ack_before));
                }
            }
        }
        proof {
            assert(was.take(given.len() as int) =~= was);
            crate::forward_laws::an_acknowledgement_is_sent_once(was, store@);
            if was.len() > 0 {
                crate::intake_laws::a_store_acknowledges_its_own(was, store@, 0, was[0]);
            }
            assert(pending_models(out@).len() == out@.len());
            assert forall|i: int| 0 <= i < out@.len() implies (#[trigger] out@[i]).store@
                == store@ by {
                assert(pending_models(out@)[i] == out@[i]@);
            }
        }
        self.pending = left;
        out
    }

    /// Forgets what a closed connection waits for: it can never be told, and
    /// what another connection waits for is not touched.
    pub fn drop_connection(&mut self, conn_id: u64)
        ensures
            final(self)@ == of_others(old(self)@, conn_id),
    {
        let ghost was = self@;
        let mut left: Vec<PendingAck> = Vec::new();
        let mut all: Vec<PendingAck> = Vec::new();
        core::mem::swap(&mut all, &mut self.pending);
        let ghost given = all@;
        proof {
            assert(pending_models(left@) =~= Seq::<PendingModel>::empty());
            assert(was.take(0) =~= Seq::<PendingModel>::empty());
        }
        for ack in it: all
            invariant
                it.seq() == given,
                was == pending_models(given),
                pending_models(left@) == of_others(was.take(it.index() as int), conn_id),
        {
            let ghost k = it.index() as int;
            let ghost ack_before = ack@;
            let ghost l = left@;
            proof {
                assert(was.take(k + 1).drop_last() =~= was.take(k));
                assert(was.take(k + 1).last() == ack@);
            }
            if ack.conn_id != conn_id {
                left.push(ack);
                proof {
                    assert(pending_models(left@) =~= pending_models(l).push(ack_before));
                }
            }
        }
        proof {
            assert(was.take(given.len() as int) =~= was);
        }
        self.pending = left;
    }
}

/// An acknowledgement on the wire: a table of the chunk's id under `ack`.
pub fn encode_ack(chunk: &str) -> (r: Vec<u8>)
    ensures
        encode_utf8(chunk@).len() <= u32::MAX ==> r@ == one_pair("ack"@, chunk@),
{
    let r = write_pair("ack", chunk);
    proof {
        reveal_strlit("ack");
        crate::wire::lemma_encode_ascii("ack"@);
    }
    r
}

// ----------------------------------------------------------------- a store

/// What the receiver does with every store, one field per flag.
#[derive(Debug, Clone, PartialEq, Eq)]
pub struct ForwardOpts {
    pub payload_key: String,
    pub retain: Option<String>,
    pub retain_size: Option<String>,
    pub index: bool,
    /// Make a store for a tag that has none. Off by default: creation is the
    /// operator's decision, not the network's.
    pub auto_create: bool,
}

/// Whether the retention that the flags ask for can be read.
pub fn check_opts(opts: &ForwardOpts) -> (r: Result<(), MeasureError>)
    ensures
        policy_outcome(opt_string(opts.retain), opt_string(opts.retain_size), r),
{
    let retain = match &opts.retain {
        Some(s) => Some(s.as_str()),
        None => None,
    };
    let retain_size = match &opts.retain_size {
        Some(s) => Some(s.as_str()),
        None => None,
    };
    check_policy(retain, retain_size)
}

/// A manifest with a text under a key, where there is one.
pub open spec fn with_text(m: ManifestModel, key: Seq<char>, value: Option<Seq<char>>) -> ManifestModel {
    match value {
        Some(s) => m.insert(key, JsonModel::Text(s)),
        None => m,
    }
}

/// The manifest of a new tag's store: where it came from, the tag, what the
/// first record says of its container, the retention and the index that the
/// receiver declares for whatever it makes, and a write-ahead sidecar, which
/// is what makes an acknowledgement durable.
pub open spec fn seeded(
    tag: Seq<char>,
    container_id: Option<Seq<char>>,
    container_name: Option<Seq<char>>,
    opts: ForwardOpts,
) -> ManifestModel {
    let base = derived_of(None, "forward-intake"@).insert("tag"@, JsonModel::Text(tag));
    let named = with_text(
        with_text(base, "container_id"@, container_id),
        "container_name"@,
        container_name,
    );
    let kept = with_text(
        with_text(named, "retain"@, opt_string(opts.retain)),
        "retain_size"@,
        opt_string(opts.retain_size),
    );
    let indexed = if opts.index {
        kept.insert("index"@, JsonModel::Bool(true))
    } else {
        kept
    };
    indexed.insert("wal"@, JsonModel::Bool(true))
}

fn put_text(map: &mut Fields, key: &str, value: &Option<String>)
    ensures
        final(map)@ == with_text(old(map)@, key@, opt_string(*value)),
{
    if let Some(s) = value {
        map.insert(key, Json::Text(text(s.as_str())));
    }
}

/// The manifest of a new tag's store, written before the store opens so that
/// its sidecar is there from the first entry on.
pub fn seed_bark(
    tag: &str,
    container_id: &Option<String>,
    container_name: &Option<String>,
    opts: &ForwardOpts,
) -> (r: Fields)
    ensures
        r@ == seeded(tag@, opt_string(*container_id), opt_string(*container_name), *opts),
{
    let mut map = derived_map(None, "forward-intake");
    map.insert("tag", Json::Text(text(tag)));
    put_text(&mut map, "container_id", container_id);
    put_text(&mut map, "container_name", container_name);
    put_text(&mut map, "retain", &opts.retain);
    put_text(&mut map, "retain_size", &opts.retain_size);
    if opts.index {
        map.insert("index", Json::Bool(true));
    }
    map.insert("wal", Json::Bool(true));
    map
}

/// How a tag without a store is named where it is refused.
pub fn unknown_tag(tag: &str) -> (r: String)
    ensures
        r@ == "unknown tag "@ + quoted(tag@),
{
    text("unknown tag ").concat(debug_text(tag).as_str())
}

} // verus!
