//! MessagePack values, as far as the Forward protocol reads them.

use crate::json::{json_quoted, quote};
use crate::order::{in_order, is_order_of, lemma_order_unique};
use crate::text::{decimal, join, joined, number_text, same, text, texts, utf8_text};
use crate::wire::{lossy, lossy_text};
use rmpv::Value;
use vstd::prelude::*;
use vstd::string::StringExecFns;
use vstd::utf8::{decode_utf8, encode_utf8, valid_utf8};

verus! {

/// A key of a table, how it reads in a message, and its value.
#[derive(Debug, PartialEq, Eq)]
pub struct Pair {
    pub key: Msg,
    /// The key as a debug text, for one that is no text.
    pub shown: String,
    pub value: Msg,
}

/// A value. Texts are bytes, because the wire does not hold them to UTF-8, and
/// floating-point numbers are their bits, with how JSON writes them.
#[derive(Debug, PartialEq, Eq)]
#[allow(inconsistent_fields)]
pub enum Msg {
    Nil,
    Bool(bool),
    Unsigned(u64),
    Negative(i64),
    Single { bits: u32, json: String },
    Double { bits: u64, json: String },
    Text(Vec<u8>),
    Binary(Vec<u8>),
    Array(Vec<Msg>),
    Table(Vec<Pair>),
    Ext(i8, Vec<u8>),
}

/// What a pair is.
pub struct PairModel {
    pub key: MsgModel,
    pub shown: Seq<char>,
    pub value: MsgModel,
}

/// What a value is.
#[allow(inconsistent_fields)]
pub enum MsgModel {
    Nil,
    Bool(bool),
    Unsigned(u64),
    Negative(i64),
    Single { bits: u32, json: Seq<char> },
    Double { bits: u64, json: Seq<char> },
    Text(Seq<u8>),
    Binary(Seq<u8>),
    Array(Seq<MsgModel>),
    Table(Seq<PairModel>),
    Ext(i8, Seq<u8>),
}

/// What a list of values is.
pub open spec fn msg_models(v: Seq<Msg>) -> Seq<MsgModel>
    decreases v,
{
    Seq::new(
        v.len(),
        |i: int|
            if 0 <= i < v.len() {
                model(v[i])
            } else {
                MsgModel::Nil
            },
    )
}

/// What a list of pairs is.
pub open spec fn pair_models(v: Seq<Pair>) -> Seq<PairModel>
    decreases v,
{
    Seq::new(
        v.len(),
        |i: int|
            if 0 <= i < v.len() {
                PairModel { key: model(v[i].key), shown: v[i].shown@, value: model(v[i].value) }
            } else {
                PairModel { key: MsgModel::Nil, shown: Seq::empty(), value: MsgModel::Nil }
            },
    )
}

/// What a value is, with what it holds.
pub open spec fn model(m: Msg) -> MsgModel
    decreases m,
{
    match m {
        Msg::Nil => MsgModel::Nil,
        Msg::Bool(b) => MsgModel::Bool(b),
        Msg::Unsigned(n) => MsgModel::Unsigned(n),
        Msg::Negative(n) => MsgModel::Negative(n),
        Msg::Single { bits, json } => MsgModel::Single { bits, json: json@ },
        Msg::Double { bits, json } => MsgModel::Double { bits, json: json@ },
        Msg::Text(b) => MsgModel::Text(b@),
        Msg::Binary(b) => MsgModel::Binary(b@),
        Msg::Array(v) => MsgModel::Array(msg_models(v@)),
        Msg::Table(v) => MsgModel::Table(pair_models(v@)),
        Msg::Ext(t, b) => MsgModel::Ext(t, b@),
    }
}

impl View for Msg {
    type V = MsgModel;

    open spec fn view(&self) -> MsgModel {
        model(*self)
    }
}

/// A value of the `rmpv` crate.
#[verifier::external_type_specification]
#[verifier::external_body]
pub struct ExValue(Value);

/// What a value of the `rmpv` crate holds.
pub uninterp spec fn held(v: Value) -> MsgModel;

/// `rmpv::Value`, where it is nil, a truth value, a number or a text: an
/// integer as `as_u64` gives it, else as `as_i64` does; a floating-point number
/// as its bits and the text that `serde_json` writes for it; the bytes of a
/// text, UTF-8 or not. Anything else is handed back.
#[verifier::external_body]
pub(crate) fn plain_of(v: Value) -> (r: Result<Msg, Value>)
    ensures
        match r {
            Ok(m) => m@ == held(v),
            Err(w) => w == v,
        },
{
    Ok(match v {
        Value::Nil => Msg::Nil,
        Value::Boolean(b) => Msg::Bool(b),
        Value::Integer(i) => i.as_u64().map(Msg::Unsigned).or(i.as_i64().map(Msg::Negative)).unwrap_or(Msg::Nil),
        Value::F32(f) => Msg::Single { bits: f.to_bits(), json: serde_json::Value::from(f).to_string() },
        Value::F64(f) => Msg::Double { bits: f.to_bits(), json: serde_json::Value::from(f).to_string() },
        Value::String(s) => Msg::Text(s.into_bytes()),
        other => return Err(other),
    })
}

/// A key and its value, as the `rmpv` crate holds them, and the key's `Debug`
/// text.
pub(crate) struct Entry {
    key: Value,
    shown: String,
    value: Value,
}

/// What is no number and no text.
pub(crate) enum Rest {
    Plain(Msg),
    Array(Vec<Value>),
    Table(Vec<Entry>),
}

/// What each value of a list holds.
pub(crate) open spec fn all_held(v: Seq<Value>) -> Seq<MsgModel> {
    Seq::new(v.len(), |i: int| held(v[i]))
}

/// What each key and value of a list holds.
pub(crate) closed spec fn pairs_held(v: Seq<Entry>) -> Seq<PairModel> {
    Seq::new(
        v.len(),
        |i: int|
            PairModel { key: held(v[i].key), shown: v[i].shown@, value: held(v[i].value) },
    )
}

/// `rmpv::Value`, where it is bytes, an extension, an array or a map: the
/// values in it, in order, and each key also as its `Debug` text.
#[verifier::external_body]
pub(crate) fn rest_of(v: Value) -> (r: Rest)
    ensures
        held(v) == (match r {
            Rest::Plain(m) => m@,
            Rest::Array(items) => MsgModel::Array(all_held(items@)),
            Rest::Table(pairs) => MsgModel::Table(pairs_held(pairs@)),
        }),
{
    match v {
        Value::Array(a) => Rest::Array(a),
        Value::Map(m) => Rest::Table(
            m.into_iter().map(|(key, value)| Entry { shown: format!("{key:?}"), key, value }).collect(),
        ),
        Value::Binary(b) => Rest::Plain(Msg::Binary(b)),
        Value::Ext(t, b) => Rest::Plain(Msg::Ext(t, b)),
        plain => Rest::Plain(plain_of(plain).unwrap_or(Msg::Nil)),
    }
}

/// A list from its end to its beginning.
fn turned<T>(v: Vec<T>) -> (r: Vec<T>)
    ensures
        r@ == v@.reverse(),
{
    let ghost all = v@;
    let mut rest = v;
    let mut out: Vec<T> = Vec::new();
    while rest.len() > 0
        invariant
            rest@.len() <= all.len(),
            rest@ == all.take(rest@.len() as int),
            out@ == all.reverse().take(all.len() - rest@.len()),
        decreases rest@.len(),
    {
        if let Some(x) = rest.pop() {
            out.push(x);
        }
        proof {
            assert(rest@ =~= all.take(rest@.len() as int));
            assert(out@ =~= all.reverse().take(all.len() - rest@.len()));
        }
    }
    proof {
        assert(out@ =~= all.reverse());
    }
    out
}

/// What a value of the `rmpv` crate holds.
pub(crate) fn msg_of(v: Value) -> (r: Msg)
    ensures
        r@ == held(v),
    decreases held(v),
{
    let ghost all = held(v);
    match plain_of(v) {
        Ok(m) => m,
        Err(other) => match rest_of(other) {
            Rest::Plain(m) => m,
            Rest::Array(items) => {
                let ghost models = all_held(items@);
                let mut rest = turned(items);
                let mut out: Vec<Msg> = Vec::new();
                while rest.len() > 0
                    invariant
                        all == held(v),
                        all == MsgModel::Array(models),
                        rest@.len() <= models.len(),
                        all_held(rest@) == models.reverse().take(rest@.len() as int),
                        msg_models(out@) == models.take(models.len() - rest@.len()),
                    decreases rest@.len(),
                {
                    let ghost i = models.len() - rest@.len();
                    let ghost before = rest@;
                    let ghost done = out@;
                    if let Some(x) = rest.pop() {
                        proof {
                            assert(all_held(before)[before.len() - 1] == models[i]);
                            assert(decreases_to!(all => all->Array_0));
                            assert(decreases_to!(models => models[i]));
                        }
                        let m = msg_of(x);
                        out.push(m);
                        proof {
                            assert(msg_models(out@) =~= msg_models(done).push(m@));
                            assert(models.take(i + 1) =~= models.take(i).push(models[i]));
                            assert(all_held(rest@) =~= all_held(before).drop_last());
                            assert(all_held(rest@) =~= models.reverse().take(rest@.len() as int));
                        }
                    }
                }
                proof {
                    assert(models.take(models.len() as int) =~= models);
                }
                Msg::Array(out)
            },
            Rest::Table(pairs) => {
                let ghost models = pairs_held(pairs@);
                let mut rest = turned(pairs);
                let mut out: Vec<Pair> = Vec::new();
                while rest.len() > 0
                    invariant
                        all == held(v),
                        all == MsgModel::Table(models),
                        rest@.len() <= models.len(),
                        pairs_held(rest@) == models.reverse().take(rest@.len() as int),
                        pair_models(out@) == models.take(models.len() - rest@.len()),
                    decreases rest@.len(),
                {
                    let ghost i = models.len() - rest@.len();
                    let ghost before = rest@;
                    let ghost done = out@;
                    if let Some(x) = rest.pop() {
                        proof {
                            assert(pairs_held(before)[before.len() - 1] == models[i]);
                            assert(decreases_to!(all => all->Table_0));
                            assert(decreases_to!(models => models[i]));
                            assert(decreases_to!(models[i] => models[i].key));
                            assert(decreases_to!(models[i] => models[i].value));
                        }
                        let key = msg_of(x.key);
                        let value = msg_of(x.value);
                        let pair = Pair { key, shown: x.shown, value };
                        out.push(pair);
                        proof {
                            assert(pair_models(out@) =~= pair_models(done).push(models[i]));
                            assert(models.take(i + 1) =~= models.take(i).push(models[i]));
                            assert(pairs_held(rest@) =~= pairs_held(before).drop_last());
                            assert(pairs_held(rest@) =~= models.reverse().take(rest@.len() as int));
                        }
                    }
                }
                proof {
                    assert(models.take(models.len() as int) =~= models);
                }
                Msg::Table(out)
            },
        },
    }
}

/// Why no value could be read.
#[derive(Clone, Debug, PartialEq, Eq)]
pub struct ReadError {
    /// Whether the bytes end before the value does.
    pub ended: bool,
    pub said: String,
}

/// What a `ReadError` says.
pub struct ReadProblem {
    pub ended: bool,
    pub said: Seq<char>,
}

impl View for ReadError {
    type V = ReadProblem;

    open spec fn view(&self) -> ReadProblem {
        ReadProblem { ended: self.ended, said: self.said@ }
    }
}

/// The value that a run of bytes starts with, and how many bytes it takes.
pub uninterp spec fn first_value(b: Seq<u8>) -> Result<(MsgModel, nat), ReadProblem>;

/// `rmpv::decode::read_value` on a run of bytes: the value that the run starts
/// with, and how many bytes were read for it, at least its marker; or the
/// error, and whether it is that the run ended.
#[verifier::external_body]
pub(crate) fn read_value(b: &[u8]) -> (r: Result<(Value, usize), ReadError>)
    ensures
        match r {
            Ok((v, used)) => first_value(b@) == Ok::<(MsgModel, nat), ReadProblem>(
                (held(v), used as nat),
            ) && 0 < used <= b@.len(),
            Err(e) => first_value(b@) == Err::<(MsgModel, nat), ReadProblem>(e@),
        },
{
    let mut rest = b;
    match rmpv::decode::read_value(&mut rest) {
        Ok(v) => Ok((v, b.len() - rest.len())),
        Err(e) => Err(ReadError {
            ended: e.kind() == std::io::ErrorKind::UnexpectedEof,
            said: e.to_string(),
        }),
    }
}

/// Reads the value that a run of bytes starts with.
pub fn read_msg(b: &[u8]) -> (r: Result<(Msg, usize), ReadError>)
    ensures
        match r {
            Ok((m, used)) => first_value(b@) == Ok::<(MsgModel, nat), ReadProblem>(
                (m@, used as nat),
            ) && 0 < used <= b@.len(),
            Err(e) => first_value(b@) == Err::<(MsgModel, nat), ReadProblem>(e@),
        },
{
    match read_value(b) {
        Ok((v, used)) => Ok((msg_of(v), used)),
        Err(e) => Err(e),
    }
}

/// A length of so many bytes, the largest byte first.
pub open spec fn big_endian(n: nat, width: nat) -> Seq<u8>
    decreases width,
{
    if width == 0 {
        Seq::empty()
    } else {
        big_endian(n / 256, (width - 1) as nat).push((n % 256) as u8)
    }
}

/// A text on the wire: the shortest header that holds its length, and it.
pub open spec fn text_bytes(b: Seq<u8>) -> Seq<u8> {
    let n = b.len();
    let header = if n < 32 {
        seq![(0xa0 + n) as u8]
    } else if n < 0x100 {
        seq![0xd9u8] + big_endian(n, 1)
    } else if n < 0x1_0000 {
        seq![0xdau8] + big_endian(n, 2)
    } else {
        seq![0xdbu8] + big_endian(n, 4)
    };
    header + b
}

/// A table of one text under one key, on the wire.
pub open spec fn one_pair(key: Seq<char>, value: Seq<char>) -> Seq<u8> {
    seq![0x81u8] + text_bytes(encode_utf8(key)) + text_bytes(encode_utf8(value))
}

/// `rmpv::encode::write_value` on a map of one text under one key, into memory.
/// A text whose length takes more than 32 bits has no form on the wire, and
/// nothing is said of what is written for one.
#[verifier::external_body]
pub(crate) fn write_pair(key: &str, value: &str) -> (r: Vec<u8>)
    ensures
        encode_utf8(key@).len() <= u32::MAX && encode_utf8(value@).len() <= u32::MAX ==> r@
            == one_pair(key@, value@),
{
    let table = Value::Map(vec![(Value::from(key), Value::from(value))]);
    let mut out = Vec::new();
    let _ = rmpv::encode::write_value(&mut out, &table);
    out
}

/// The text of a value, where it is one and is UTF-8.
pub open spec fn text_in(v: MsgModel) -> Option<Seq<char>> {
    match v {
        MsgModel::Text(b) => if valid_utf8(b) {
            Some(decode_utf8(b))
        } else {
            None
        },
        _ => None,
    }
}

/// The first value under a key, from the `i`th pair on.
pub open spec fn field_from(pairs: Seq<PairModel>, key: Seq<char>, i: int) -> Option<MsgModel>
    decreases pairs.len() - i,
{
    if i < 0 || i >= pairs.len() {
        None
    } else if text_in(pairs[i].key) == Some(key) {
        Some(pairs[i].value)
    } else {
        field_from(pairs, key, i + 1)
    }
}

/// The first value under a key, where the value is a table that has it.
pub open spec fn field(v: MsgModel, key: Seq<char>) -> Option<MsgModel> {
    match v {
        MsgModel::Table(pairs) => field_from(pairs, key, 0),
        _ => None,
    }
}

/// The text under a key.
pub open spec fn text_at(v: MsgModel, key: Seq<char>) -> Option<Seq<char>> {
    match field(v, key) {
        Some(f) => text_in(f),
        None => None,
    }
}

/// How JSON names a key: the key's text, or its debug text where it is none.
pub open spec fn key_text(p: PairModel) -> Seq<char> {
    match p.key {
        MsgModel::Text(b) => lossy(b),
        _ => p.shown,
    }
}

/// A key and the JSON under it.
pub struct Member {
    pub key: Seq<char>,
    pub json: Seq<char>,
}

/// The JSON under a key: what was said last.
pub open spec fn last_under(members: Seq<Member>, key: Seq<char>) -> Seq<char>
    decreases members.len(),
{
    if members.len() == 0 {
        Seq::empty()
    } else if members.last().key == key {
        members.last().json
    } else {
        last_under(members.drop_last(), key)
    }
}

/// The keys of a list of members.
pub open spec fn member_keys(members: Seq<Member>) -> Seq<Seq<char>> {
    Seq::new(members.len(), |i: int| members[i].key)
}

/// The keys of a list of members, each once, in order.
pub open spec fn keys_in_order(members: Seq<Member>) -> Seq<Seq<char>> {
    choose|r: Seq<Seq<char>>| is_order_of(r, member_keys(members))
}

/// The members of an object as JSON writes them, in the order of the keys.
pub open spec fn member_texts(members: Seq<Member>) -> Seq<Seq<char>> {
    let keys = keys_in_order(members);
    Seq::new(keys.len(), |i: int| json_quoted(keys[i]) + ":"@ + last_under(members, keys[i]))
}

/// A whole number in decimal.
pub open spec fn signed_decimal(n: int) -> Seq<char> {
    if n < 0 {
        "-"@ + decimal((-n) as nat)
    } else {
        decimal(n as nat)
    }
}

/// Each value of a list as compact JSON.
pub open spec fn item_texts(items: Seq<MsgModel>) -> Seq<Seq<char>>
    decreases items,
{
    Seq::new(
        items.len(),
        |i: int|
            if 0 <= i < items.len() {
                compact(items[i])
            } else {
                Seq::empty()
            },
    )
}

/// Each pair of a table as a key and the JSON under it.
pub open spec fn members(pairs: Seq<PairModel>) -> Seq<Member>
    decreases pairs,
{
    Seq::new(
        pairs.len(),
        |i: int|
            if 0 <= i < pairs.len() {
                Member { key: key_text(pairs[i]), json: compact(pairs[i].value) }
            } else {
                Member { key: Seq::empty(), json: Seq::empty() }
            },
    )
}

/// A value as compact JSON. Bytes are text, with what is no UTF-8 replaced; of
/// an extension the type and the length are told; a key that comes twice has
/// the value that came last.
pub open spec fn compact(v: MsgModel) -> Seq<char>
    decreases v,
{
    match v {
        MsgModel::Nil => "null"@,
        MsgModel::Bool(true) => "true"@,
        MsgModel::Bool(false) => "false"@,
        MsgModel::Unsigned(n) => decimal(n as nat),
        MsgModel::Negative(n) => signed_decimal(n as int),
        MsgModel::Single { bits: _, json } => json,
        MsgModel::Double { bits: _, json } => json,
        MsgModel::Text(b) => json_quoted(lossy(b)),
        MsgModel::Binary(b) => json_quoted(lossy(b)),
        MsgModel::Array(items) => "["@ + joined(item_texts(items), ","@) + "]"@,
        MsgModel::Table(pairs) => "{"@ + joined(member_texts(members(pairs)), ","@) + "}"@,
        MsgModel::Ext(kind, b) => "{\"ext_data_len\":"@ + decimal(b.len()) + ",\"ext_type\":"@
            + signed_decimal(kind as int) + "}"@,
    }
}

/// A key and the JSON under it.
struct Written {
    key: String,
    json: String,
}

spec fn written(v: Seq<Written>) -> Seq<Member> {
    Seq::new(v.len(), |i: int| Member { key: v[i].key@, json: v[i].json@ })
}

fn signed_text(n: i64) -> (r: String)
    ensures
        r@ == signed_decimal(n as int),
{
    if n < 0 {
        let mut r = text("-");
        let m: u64 = if n == i64::MIN {
            0x8000_0000_0000_0000u64
        } else {
            (-n) as u64
        };
        r.append(number_text(m).as_str());
        r
    } else {
        number_text(n as u64)
    }
}

fn members_text(v: &Vec<Written>) -> (r: String)
    ensures
        r@ == joined(member_texts(written(v@)), ","@),
{
    let ghost members = written(v@);
    let mut keys: Vec<String> = Vec::new();
    let mut i: usize = 0;
    while i < v.len()
        invariant
            i <= v@.len(),
            members == written(v@),
            texts(keys@) == member_keys(members).take(i as int),
        decreases v@.len() - i,
    {
        let ghost was = keys@;
        let key = text(v[i].key.as_str());
        keys.push(key);
        i = i + 1;
        proof {
            assert(texts(keys@) =~= texts(was).push(key@));
            assert(member_keys(members)[i - 1] == key@);
            assert(texts(keys@) =~= member_keys(members).take(i as int));
        }
    }
    proof {
        assert(texts(keys@) =~= member_keys(members));
    }
    let sorted = in_order(&keys);
    proof {
        lemma_order_unique(texts(sorted@), keys_in_order(members));
    }
    let mut parts: Vec<String> = Vec::new();
    let mut k: usize = 0;
    while k < sorted.len()
        invariant
            k <= sorted@.len(),
            members == written(v@),
            texts(sorted@) == keys_in_order(members),
            texts(parts@) == member_texts(members).take(k as int),
        decreases sorted@.len() - k,
    {
        let mut part = crate::json::quote(sorted[k].as_str());
        part.append(":");
        part.append(last_text(v, sorted[k].as_str()).as_str());
        let ghost was = parts@;
        parts.push(part);
        k = k + 1;
        proof {
            assert(texts(sorted@)[k - 1] == sorted@[k - 1]@);
            assert(texts(parts@) =~= texts(was).push(part@));
            assert(member_texts(members)[k - 1] == part@);
            assert(texts(parts@) =~= member_texts(members).take(k as int));
        }
    }
    proof {
        assert(texts(parts@) =~= member_texts(members));
    }
    join(&parts, ",")
}

fn last_text(v: &Vec<Written>, key: &str) -> (r: String)
    ensures
        r@ == last_under(written(v@), key@),
{
    let ghost members = written(v@);
    let mut n: usize = v.len();
    assert(members.take(n as int) =~= members);
    while n > 0
        invariant
            n <= v@.len(),
            members == written(v@),
            last_under(members.take(n as int), key@) == last_under(members, key@),
        decreases n,
    {
        proof {
            assert(members.take(n as int).drop_last() =~= members.take(n - 1));
        }
        if same(v[n - 1].key.as_str(), key) {
            return text(v[n - 1].json.as_str());
        }
        n = n - 1;
    }
    String::new()
}

impl Msg {
    /// The text, where the value is one and is UTF-8.
    pub fn as_text(&self) -> (r: Option<String>)
        ensures
            match r {
                Some(s) => text_in(self@) == Some(s@),
                None => text_in(self@) is None,
            },
    {
        match self {
            Msg::Text(b) => utf8_text(b.as_slice()),
            _ => None,
        }
    }

    /// The value as compact JSON.
    pub fn json(&self) -> (r: String)
        ensures
            r@ == compact(self@),
        decreases self,
    {
        match self {
            Msg::Nil => text("null"),
            Msg::Bool(b) => if *b {
                text("true")
            } else {
                text("false")
            },
            Msg::Unsigned(n) => number_text(*n),
            Msg::Negative(n) => signed_text(*n),
            Msg::Single { bits: _, json } => text(json.as_str()),
            Msg::Double { bits: _, json } => text(json.as_str()),
            Msg::Text(b) => quote(lossy_text(b.as_slice()).as_str()),
            Msg::Binary(b) => quote(lossy_text(b.as_slice()).as_str()),
            Msg::Array(items) => {
                let ghost models = msg_models(items@);
                let ghost all = item_texts(models);
                let mut parts: Vec<String> = Vec::new();
                let mut i: usize = 0;
                while i < items.len()
                    invariant
                        i <= items@.len(),
                        *self == Msg::Array(*items),
                        models == msg_models(items@),
                        all == item_texts(models),
                        texts(parts@) == all.take(i as int),
                    decreases items@.len() - i,
                {
                    proof {
                        assert(decreases_to!(*self => self->Array_0));
                        assert(decreases_to!(*items => items[i as int]));
                    }
                    let part = items[i].json();
                    let ghost was = parts@;
                    parts.push(part);
                    i = i + 1;
                    proof {
                        assert(all[i - 1] == compact(models[i - 1]));
                        assert(texts(parts@) =~= texts(was).push(part@));
                        assert(texts(parts@) =~= all.take(i as int));
                    }
                }
                proof {
                    assert(texts(parts@) =~= all);
                    assert(self@ == MsgModel::Array(models));
                    assert(compact(self@) == "["@ + joined(all, ","@) + "]"@);
                }
                let mut r = text("[");
                r.append(join(&parts, ",").as_str());
                r.append("]");
                r
            },
            Msg::Table(pairs) => {
                let ghost models = pair_models(pairs@);
                let ghost all = members(models);
                let mut list: Vec<Written> = Vec::new();
                let mut i: usize = 0;
                while i < pairs.len()
                    invariant
                        i <= pairs@.len(),
                        *self == Msg::Table(*pairs),
                        models == pair_models(pairs@),
                        all == members(models),
                        written(list@) == all.take(i as int),
                    decreases pairs@.len() - i,
                {
                    let pair = &pairs[i];
                    let key = match &pair.key {
                        Msg::Text(b) => lossy_text(b.as_slice()),
                        _ => text(pair.shown.as_str()),
                    };
                    proof {
                        assert(decreases_to!(*self => self->Table_0));
                        assert(decreases_to!(*pairs => pairs[i as int]));
                    }
                    let json = pair.value.json();
                    let ghost was = list@;
                    list.push(Written { key, json });
                    i = i + 1;
                    proof {
                        assert(all[i - 1].key == key@);
                        assert(written(list@) =~= written(was).push(
                            (Member { key: key@, json: json@ }),
                        ));
                        assert(written(list@) =~= all.take(i as int));
                    }
                }
                proof {
                    assert(written(list@) =~= all);
                    assert(self@ == MsgModel::Table(models));
                    assert(compact(self@) == "{"@ + joined(member_texts(all), ","@) + "}"@);
                }
                let mut r = text("{");
                r.append(members_text(&list).as_str());
                r.append("}");
                r
            },
            Msg::Ext(kind, b) => {
                let size: usize = b.len();
                let mut r = text("{\"ext_data_len\":");
                r.append(number_text(size as u64).as_str());
                r.append(",\"ext_type\":");
                r.append(signed_text(*kind as i64).as_str());
                r.append("}");
                r
            },
        }
    }
}

/// Which pair is the first under a key; how many there are where none is.
fn field_index(pairs: &Vec<Pair>, key: &str) -> (k: usize)
    ensures
        k <= pairs@.len(),
        field_from(pair_models(pairs@), key@, 0) == (if k < pairs@.len() {
            Some(pairs@[k as int].value@)
        } else {
            None
        }),
{
    let ghost models = pair_models(pairs@);
    let mut k: usize = 0;
    while k < pairs.len()
        invariant
            k <= pairs@.len(),
            models == pair_models(pairs@),
            field_from(models, key@, 0) == field_from(models, key@, k as int),
        decreases pairs@.len() - k,
    {
        if let Some(t) = pairs[k].key.as_text() {
            if same(t.as_str(), key) {
                return k;
            }
        }
        k = k + 1;
    }
    k
}

/// The first value under a key, where the record is a table that has it.
pub fn find_field<'a>(record: &'a Msg, key: &str) -> (r: Option<&'a Msg>)
    ensures
        match r {
            Some(v) => field(record@, key@) == Some(v@),
            None => field(record@, key@) is None,
        },
{
    match record {
        Msg::Table(pairs) => {
            let k: usize = field_index(pairs, key);
            if k < pairs.len() {
                Some(&pairs[k].value)
            } else {
                None
            }
        },
        _ => None,
    }
}

/// The text under a key, where the record is a table that has one there.
pub fn record_str(record: &Msg, key: &str) -> (r: Option<String>)
    ensures
        match r {
            Some(s) => text_at(record@, key@) == Some(s@),
            None => text_at(record@, key@) is None,
        },
{
    match find_field(record, key) {
        Some(v) => v.as_text(),
        None => None,
    }
}

} // verus!
