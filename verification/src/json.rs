//! JSON as far as manifests, cursors and declarations are read: flat objects
//! whose values are texts, truth values, whole numbers and lists of texts.
//! Anything else is carried along as the text it was written with.

use crate::order::{in_order, lemma_order_unique, ordered};
use crate::text::{decimal, join, joined, number_text, same, text, texts};
use serde_json::Value;
use vstd::prelude::*;
use vstd::string::StringExecFns;

verus! {

/// A member of a list.
#[derive(Debug, Clone, PartialEq, Eq)]
pub enum Item {
    Text(String),
    /// Any other value, as compact JSON.
    Other(String),
}

/// A value.
#[derive(Debug, Clone, PartialEq, Eq)]
pub enum Json {
    Null,
    Bool(bool),
    Whole(u64),
    Text(String),
    List(Vec<Item>),
    /// Any other value, as compact JSON.
    Other(String),
}

/// What a member of a list is.
pub enum ItemModel {
    Text(Seq<char>),
    Other(Seq<char>),
}

/// What a value is.
pub enum JsonModel {
    Null,
    Bool(bool),
    Whole(u64),
    Text(Seq<char>),
    List(Seq<ItemModel>),
    Other(Seq<char>),
}

impl View for Item {
    type V = ItemModel;

    open spec fn view(&self) -> ItemModel {
        match *self {
            Item::Text(s) => ItemModel::Text(s@),
            Item::Other(s) => ItemModel::Other(s@),
        }
    }
}

pub open spec fn item_models(v: Seq<Item>) -> Seq<ItemModel> {
    Seq::new(v.len(), |i: int| v[i]@)
}

impl View for Json {
    type V = JsonModel;

    open spec fn view(&self) -> JsonModel {
        match *self {
            Json::Null => JsonModel::Null,
            Json::Bool(b) => JsonModel::Bool(b),
            Json::Whole(n) => JsonModel::Whole(n),
            Json::Text(s) => JsonModel::Text(s@),
            Json::List(v) => JsonModel::List(item_models(v@)),
            Json::Other(s) => JsonModel::Other(s@),
        }
    }
}

/// A key and its value.
#[derive(Debug, Clone, PartialEq, Eq)]
pub struct Field {
    pub key: String,
    pub value: Json,
}

/// What a key and its value are.
pub struct FieldModel {
    pub key: Seq<char>,
    pub value: JsonModel,
}

impl View for Field {
    type V = FieldModel;

    open spec fn view(&self) -> FieldModel {
        FieldModel { key: self.key@, value: self.value@ }
    }
}

pub open spec fn field_models(v: Seq<Field>) -> Seq<FieldModel> {
    Seq::new(v.len(), |i: int| v[i]@)
}

/// The members of the JSON object that a text spells, in the order of their
/// keys: nothing where it spells no object.
pub uninterp spec fn json_object(text: Seq<char>) -> Option<Seq<FieldModel>>;

/// `serde_json::from_str` into a `Value`: the members of the object that the
/// text spells, each value as what it is, and nothing for a text that is not
/// JSON or not an object. The result depends on the text alone.
#[verifier::external_body]
pub(crate) fn read_object(text: &str) -> (r: Option<Vec<Field>>)
    ensures
        match r {
            Some(v) => json_object(text@) == Some(field_models(v@)),
            None => json_object(text@) is None,
        },
{
    let item = |v| match v {
        Value::String(s) => Item::Text(s),
        other => Item::Other(other.to_string()),
    };
    let value = |v| match v {
        Value::Null => Json::Null,
        Value::Bool(b) => Json::Bool(b),
        Value::String(s) => Json::Text(s),
        Value::Array(a) => Json::List(a.into_iter().map(item).collect()),
        other => other.as_u64().map(Json::Whole).unwrap_or(Json::Other(other.to_string())),
    };
    serde_json::from_str::<serde_json::Map<String, Value>>(text)
        .ok()
        .map(|m| m.into_iter().map(|(key, v)| Field { key, value: value(v) }).collect())
}

/// The JSON string literal that spells a text.
pub uninterp spec fn json_quoted(s: Seq<char>) -> Seq<char>;

/// Whether a text holds no control character.
pub open spec fn no_control(s: Seq<char>) -> bool {
    forall|i: int| 0 <= i < s.len() ==> (#[trigger] s[i]) as u32 >= 0x20
}

/// `serde_json::Value::to_string` on a string: the text as a JSON string,
/// which reads back as the text and holds no control character, each being
/// written as an escape.
#[verifier::external_body]
pub(crate) fn quote(s: &str) -> (r: String)
    ensures
        r@ == json_quoted(s@),
        json_string(r@) == Some(s@),
        no_control(r@),
{
    Value::from(s).to_string()
}

/// The text that a JSON string literal spells: nothing where it spells none.
pub uninterp spec fn json_string(text: Seq<char>) -> Option<Seq<char>>;

/// `serde_json::from_str` into a `String`: the text that a JSON string
/// literal spells.
#[verifier::external_body]
pub(crate) fn read_string(text: &str) -> (r: Option<String>)
    ensures
        match r {
            Some(s) => json_string(text@) == Some(s@),
            None => json_string(text@) is None,
        },
{
    serde_json::from_str::<String>(text).ok()
}

/// The text that spells the same JSON value in indented form: nothing where a
/// text spells none.
pub uninterp spec fn json_indented(text: Seq<char>) -> Option<Seq<char>>;

/// `serde_json::to_string_pretty` on the value that a text spells: the value in
/// indented form. The result depends on the text alone.
#[verifier::external_body]
pub(crate) fn indented(text: &str) -> (r: Option<String>)
    ensures
        match r {
            Some(s) => json_indented(text@) == Some(s@),
            None => json_indented(text@) is None,
        },
{
    serde_json::from_str::<Value>(text).ok().and_then(|v| serde_json::to_string_pretty(&v).ok())
}

/// A store and a whole number.
pub struct Whole {
    pub key: String,
    pub number: u64,
}

/// What a list of keys and whole numbers is, as members of an object.
pub open spec fn whole_fields(v: Seq<Whole>) -> Seq<FieldModel> {
    Seq::new(
        v.len(),
        |i: int| FieldModel { key: v[i].key@, value: JsonModel::Whole(v[i].number) },
    )
}

/// Members as compact JSON writes them.
pub open spec fn member_texts(members: Seq<FieldModel>) -> Seq<Seq<char>> {
    Seq::new(
        members.len(),
        |i: int| json_quoted(members[i].key) + ":"@ + json_text(members[i].value),
    )
}

/// The compact JSON object with the given members.
pub open spec fn json_members(members: Seq<FieldModel>) -> Seq<char> {
    "{"@ + joined(member_texts(members), ","@) + "}"@
}

/// `serde_json::Value::to_string` on an object of whole numbers whose keys are
/// given in order, each once: compact JSON, each key as `quote` writes it and
/// each number in decimal, which reads back as the same members and holds no
/// control character.
#[verifier::external_body]
pub(crate) fn wholes_text(members: &Vec<Whole>) -> (r: String)
    requires
        crate::order::ordered(
            Seq::new(members@.len(), |i: int| members@[i].key@),
        ),
    ensures
        r@ == json_members(whole_fields(members@)),
        json_object(r@) == Some(whole_fields(members@)),
        no_control(r@),
{
    let map: serde_json::Map<String, Value> =
        members.iter().map(|m| (m.key.clone(), Value::from(m.number))).collect();
    Value::Object(map).to_string()
}

pub open spec fn item_text(i: ItemModel) -> Seq<char> {
    match i {
        ItemModel::Text(s) => json_quoted(s),
        ItemModel::Other(s) => s,
    }
}

pub open spec fn list_text(v: Seq<ItemModel>) -> Seq<char>
    decreases v.len(),
{
    if v.len() == 0 {
        "["@
    } else if v.len() == 1 {
        "["@ + item_text(v[0])
    } else {
        list_text(v.drop_last()) + ","@ + item_text(v.last())
    }
}

/// A value as compact JSON.
pub open spec fn json_text(v: JsonModel) -> Seq<char> {
    match v {
        JsonModel::Null => "null"@,
        JsonModel::Bool(true) => "true"@,
        JsonModel::Bool(false) => "false"@,
        JsonModel::Whole(n) => decimal(n as nat),
        JsonModel::Text(s) => json_quoted(s),
        JsonModel::List(items) => list_text(items) + "]"@,
        JsonModel::Other(s) => s,
    }
}

impl Item {
    /// The member as compact JSON.
    pub fn compact(&self) -> (r: String)
        ensures
            r@ == item_text(self@),
    {
        match self {
            Item::Text(s) => quote(s.as_str()),
            Item::Other(s) => text(s.as_str()),
        }
    }

    fn copy(&self) -> (r: Item)
        ensures
            r@ == self@,
    {
        match self {
            Item::Text(s) => Item::Text(text(s.as_str())),
            Item::Other(s) => Item::Other(text(s.as_str())),
        }
    }

    fn equals(&self, other: &Item) -> (r: bool)
        ensures
            r == (self@ == other@),
    {
        match (self, other) {
            (Item::Text(a), Item::Text(b)) => same(a.as_str(), b.as_str()),
            (Item::Other(a), Item::Other(b)) => same(a.as_str(), b.as_str()),
            _ => false,
        }
    }
}

impl Json {
    /// The value as compact JSON.
    pub fn compact(&self) -> (r: String)
        ensures
            r@ == json_text(self@),
    {
        match self {
            Json::Null => text("null"),
            Json::Bool(b) => if *b {
                text("true")
            } else {
                text("false")
            },
            Json::Whole(n) => number_text(*n),
            Json::Text(s) => quote(s.as_str()),
            Json::List(v) => {
                let ghost items = item_models(v@);
                let mut r = text("[");
                let mut i: usize = 0;
                assert(items.take(0).len() == 0);
                while i < v.len()
                    invariant
                        i <= v@.len(),
                        items == item_models(v@),
                        r@ == list_text(items.take(i as int)),
                    decreases v@.len() - i,
                {
                    if i > 0 {
                        r.append(",");
                    }
                    r.append(v[i].compact().as_str());
                    proof {
                        let next = items.take(i + 1);
                        assert(next.drop_last() =~= items.take(i as int));
                        assert(next.last() == items[i as int]);
                    }
                    i = i + 1;
                }
                assert(items.take(i as int) =~= items);
                r.append("]");
                r
            },
            Json::Other(s) => text(s.as_str()),
        }
    }

    /// The text that the value is, where it is one.
    pub fn as_text(&self) -> (r: Option<&str>)
        ensures
            match r {
                Some(s) => self@ == JsonModel::Text(s@),
                None => !(self@ is Text),
            },
    {
        match self {
            Json::Text(s) => Some(s.as_str()),
            _ => None,
        }
    }

    /// A copy of the value.
    pub fn copy(&self) -> (r: Json)
        ensures
            r@ == self@,
    {
        match self {
            Json::Null => Json::Null,
            Json::Bool(b) => Json::Bool(*b),
            Json::Whole(n) => Json::Whole(*n),
            Json::Text(s) => Json::Text(text(s.as_str())),
            Json::List(v) => {
                let mut out: Vec<Item> = Vec::new();
                let mut i: usize = 0;
                while i < v.len()
                    invariant
                        i <= v@.len(),
                        out@.len() == i,
                        forall|j: int| 0 <= j < i ==> (#[trigger] out@[j])@ == v@[j]@,
                    decreases v@.len() - i,
                {
                    out.push(v[i].copy());
                    i = i + 1;
                }
                assert(item_models(out@) =~= item_models(v@));
                Json::List(out)
            },
            Json::Other(s) => Json::Other(text(s.as_str())),
        }
    }

    /// Whether two values are the same.
    pub fn equals(&self, other: &Json) -> (r: bool)
        ensures
            r == (self@ == other@),
    {
        match (self, other) {
            (Json::Null, Json::Null) => true,
            (Json::Bool(a), Json::Bool(b)) => *a == *b,
            (Json::Whole(a), Json::Whole(b)) => *a == *b,
            (Json::Text(a), Json::Text(b)) => same(a.as_str(), b.as_str()),
            (Json::Other(a), Json::Other(b)) => same(a.as_str(), b.as_str()),
            (Json::List(a), Json::List(b)) => {
                let ghost x = item_models(a@);
                let ghost y = item_models(b@);
                if a.len() != b.len() {
                    assert(x.len() != y.len());
                    return false;
                }
                let mut i: usize = 0;
                while i < a.len()
                    invariant
                        i <= a@.len(),
                        a@.len() == b@.len(),
                        x == item_models(a@),
                        y == item_models(b@),
                        self@ == JsonModel::List(x),
                        other@ == JsonModel::List(y),
                        forall|j: int| 0 <= j < i ==> #[trigger] x[j] == y[j],
                    decreases a@.len() - i,
                {
                    if !a[i].equals(&b[i]) {
                        assert(x[i as int] != y[i as int]);
                        return false;
                    }
                    i = i + 1;
                }
                assert(x =~= y);
                true
            },
            _ => false,
        }
    }
}

// ------------------------------------------------------------------- fields

/// The value that the first `n` members give a key: the last of them that
/// states it.
pub open spec fn value_in(v: Seq<FieldModel>, key: Seq<char>) -> Option<JsonModel>
    decreases v.len(),
{
    if v.len() == 0 {
        None
    } else if v.last().key == key {
        Some(v.last().value)
    } else {
        value_in(v.drop_last(), key)
    }
}

/// What a list of members says, as a map.
pub open spec fn fields_map(v: Seq<FieldModel>) -> Map<Seq<char>, JsonModel> {
    Map::new(|k: Seq<char>| value_in(v, k) is Some, |k: Seq<char>| value_in(v, k)->Some_0)
}

/// A flat object: keys and their values.
#[derive(Debug, Clone)]
pub struct Fields {
    entries: Vec<Field>,
}

impl View for Fields {
    type V = Map<Seq<char>, JsonModel>;

    closed spec fn view(&self) -> Map<Seq<char>, JsonModel> {
        fields_map(field_models(self.entries@))
    }
}

proof fn lemma_value_push(v: Seq<FieldModel>, f: FieldModel, key: Seq<char>)
    ensures
        value_in(v.push(f), key) == (if f.key == key {
            Some(f.value)
        } else {
            value_in(v, key)
        }),
{
    assert(v.push(f).drop_last() =~= v);
}

proof fn lemma_value_in(v: Seq<FieldModel>, key: Seq<char>)
    ensures
        value_in(v, key) is Some <==> exists|i: int| 0 <= i < v.len() && (#[trigger] v[i]).key == key,
    decreases v.len(),
{
    if v.len() > 0 {
        lemma_value_in(v.drop_last(), key);
        if v.last().key == key {
            assert(v[v.len() - 1].key == key);
        } else {
            if value_in(v, key) is Some {
                let i = choose|i: int|
                    0 <= i < v.drop_last().len() && (#[trigger] v.drop_last()[i]).key == key;
                assert(v[i].key == key);
            }
            if exists|i: int| 0 <= i < v.len() && (#[trigger] v[i]).key == key {
                let i = choose|i: int| 0 <= i < v.len() && (#[trigger] v[i]).key == key;
                assert(v.drop_last()[i].key == key);
            }
        }
    }
}

/// A list of whole numbers says only whole numbers.
pub proof fn lemma_whole_values(v: Seq<FieldModel>)
    requires
        forall|i: int| 0 <= i < v.len() ==> (#[trigger] v[i]).value is Whole,
    ensures
        forall|k: Seq<char>| #[trigger]
            fields_map(v).contains_key(k) ==> fields_map(v)[k] is Whole,
{
    assert forall|k: Seq<char>| #[trigger] fields_map(v).contains_key(k) implies fields_map(
        v,
    )[k] is Whole by {
        lemma_whole_value(v, k);
    }
}

proof fn lemma_whole_value(v: Seq<FieldModel>, k: Seq<char>)
    requires
        forall|i: int| 0 <= i < v.len() ==> (#[trigger] v[i]).value is Whole,
        value_in(v, k) is Some,
    ensures
        value_in(v, k)->Some_0 is Whole,
    decreases v.len(),
{
    if v.last().key == k {
        assert(v[v.len() - 1].value is Whole);
    } else {
        let t = v.drop_last();
        assert forall|i: int| 0 <= i < t.len() implies (#[trigger] t[i]).value is Whole by {
            assert(t[i] == v[i]);
        }
        lemma_whole_value(t, k);
    }
}

/// Members whose keys are those of a map, each once, with the values that the
/// map gives them, say what the map says.
pub proof fn lemma_members_of(
    m: Map<Seq<char>, JsonModel>,
    v: Seq<FieldModel>,
    names: Seq<Seq<char>>,
)
    requires
        v.len() == names.len(),
        forall|k: Seq<char>| names.contains(k) <==> m.contains_key(k),
        forall|i: int| 0 <= i < v.len() ==> (#[trigger] v[i]).key == names[i] && v[i].value
            == m[names[i]],
    ensures
        fields_map(v) == m,
{
    assert forall|k: Seq<char>| fields_map(v).contains_key(k) <==> m.contains_key(k) by {
        lemma_value_in(v, k);
        if m.contains_key(k) {
            assert(names.contains(k));
            let i = choose|i: int| 0 <= i < names.len() && names[i] == k;
            assert(v[i].key == k);
        }
        if fields_map(v).contains_key(k) {
            let i = choose|i: int| 0 <= i < v.len() && (#[trigger] v[i]).key == k;
            assert(names[i] == k);
            assert(names.contains(k));
        }
    }
    assert forall|k: Seq<char>| #[trigger] fields_map(v).contains_key(k) implies fields_map(v)[k]
        == m[k] by {
        lemma_value_from(v, k);
        let i = choose|i: int|
            0 <= i < v.len() && (#[trigger] v[i]).key == k && value_in(v, k) == Some(v[i].value);
        assert(v[i].value == m[names[i]]);
    }
    assert(fields_map(v) =~= m);
}

proof fn lemma_value_from(v: Seq<FieldModel>, k: Seq<char>)
    requires
        value_in(v, k) is Some,
    ensures
        exists|i: int|
            0 <= i < v.len() && (#[trigger] v[i]).key == k && value_in(v, k) == Some(v[i].value),
    decreases v.len(),
{
    if v.last().key == k {
        assert(v[v.len() - 1].key == k);
    } else {
        let t = v.drop_last();
        lemma_value_from(t, k);
        let i = choose|i: int|
            0 <= i < t.len() && (#[trigger] t[i]).key == k && value_in(t, k) == Some(t[i].value);
        assert(v[i].key == k);
    }
}

impl Fields {
    /// No fields.
    pub fn new() -> (r: Fields)
        ensures
            r@ == Map::<Seq<char>, JsonModel>::empty(),
    {
        let r = Fields { entries: Vec::new() };
        assert(r@ =~= Map::<Seq<char>, JsonModel>::empty());
        r
    }

    /// The object with the given members; of two with one key, the later.
    pub fn of(entries: Vec<Field>) -> (r: Fields)
        ensures
            r@ == fields_map(field_models(entries@)),
    {
        Fields { entries }
    }

    /// The object that a text spells, if it spells one.
    pub fn parse(text: &str) -> (r: Option<Fields>)
        ensures
            match r {
                Some(f) => json_object(text@) is Some && f@ == fields_map(
                    json_object(text@)->Some_0,
                ),
                None => json_object(text@) is None,
            },
    {
        match read_object(text) {
            Some(entries) => Some(Fields::of(entries)),
            None => None,
        }
    }

    /// The value of a key.
    pub fn get(&self, key: &str) -> (r: Option<&Json>)
        ensures
            match r {
                Some(v) => self@.contains_key(key@) && self@[key@] == v@,
                None => !self@.contains_key(key@),
            },
    {
        let ghost all = field_models(self.entries@);
        let mut n: usize = self.entries.len();
        assert(all.take(n as int) =~= all);
        while n > 0
            invariant
                n <= self.entries@.len(),
                all == field_models(self.entries@),
                value_in(all.take(n as int), key@) == value_in(all, key@),
            decreases n,
        {
            let ghost head = all.take(n as int);
            n = n - 1;
            proof {
                assert(head.drop_last() =~= all.take(n as int));
                assert(head.last() == all[n as int]);
            }
            if same(self.entries[n].key.as_str(), key) {
                return Some(&self.entries[n].value);
            }
        }
        None
    }

    /// Whether a key is there.
    pub fn contains_key(&self, key: &str) -> (r: bool)
        ensures
            r == self@.contains_key(key@),
    {
        self.get(key).is_some()
    }

    /// Whether there are no fields.
    pub fn is_empty(&self) -> (r: bool)
        ensures
            r == (self@ == Map::<Seq<char>, JsonModel>::empty()),
    {
        if self.entries.len() == 0 {
            assert(self@ =~= Map::<Seq<char>, JsonModel>::empty());
            true
        } else {
            proof {
                let all = field_models(self.entries@);
                let k = all.last().key;
                assert(value_in(all, k) is Some);
                assert(self@.contains_key(k));
            }
            false
        }
    }

    /// Takes a key out.
    pub fn remove(&mut self, key: &str)
        ensures
            final(self)@ == old(self)@.remove(key@),
    {
        let ghost all = field_models(self.entries@);
        let mut kept: Vec<Field> = Vec::new();
        let mut i: usize = 0;
        while i < self.entries.len()
            invariant
                i <= self.entries@.len(),
                self.entries@ == old(self).entries@,
                all == field_models(self.entries@),
                forall|k: Seq<char>| #[trigger]
                    value_in(field_models(kept@), k) == (if k == key@ {
                        None
                    } else {
                        value_in(all.take(i as int), k)
                    }),
            decreases self.entries@.len() - i,
        {
            proof {
                assert(all.take(i + 1) =~= all.take(i as int).push(all[i as int]));
                assert forall|k: Seq<char>| #[trigger] value_in(all.take(i + 1), k) == (if all[i as int].key
                    == k {
                    Some(all[i as int].value)
                } else {
                    value_in(all.take(i as int), k)
                }) by {
                    lemma_value_push(all.take(i as int), all[i as int], k);
                }
            }
            if !same(self.entries[i].key.as_str(), key) {
                let f = Field {
                    key: text(self.entries[i].key.as_str()),
                    value: self.entries[i].value.copy(),
                };
                proof {
                    let m = field_models(kept@);
                    assert(field_models(kept@.push(f)) =~= m.push(f@));
                    assert forall|k: Seq<char>| #[trigger] value_in(m.push(f@), k) == (if k == key@ {
                        None
                    } else {
                        value_in(all.take(i + 1), k)
                    }) by {
                        lemma_value_push(m, f@, k);
                        assert(value_in(m, k) == (if k == key@ {
                            None
                        } else {
                            value_in(all.take(i as int), k)
                        }));
                    }
                }
                kept.push(f);
            }
            i = i + 1;
        }
        assert(all.take(i as int) =~= all);
        self.entries = kept;
        assert(self@ =~= old(self)@.remove(key@)) by {
            assert forall|k: Seq<char>| self@.contains_key(k) <==> old(self)@.remove(
                key@,
            ).contains_key(k) by {
                assert(value_in(field_models(kept@), k) == (if k == key@ {
                    None
                } else {
                    value_in(all, k)
                }));
            }
        }
    }

    /// Gives a key a value, in place of the one it had.
    pub fn insert(&mut self, key: &str, value: Json)
        ensures
            final(self)@ == old(self)@.insert(key@, value@),
    {
        let ghost was = self@;
        self.remove(key);
        let ghost all = field_models(self.entries@);
        let f = Field { key: text(key), value };
        self.entries.push(f);
        proof {
            assert(field_models(self.entries@) =~= all.push(f@));
            assert forall|k: Seq<char>| #[trigger] value_in(all.push(f@), k) == (if k == key@ {
                Some(value@)
            } else {
                value_in(all, k)
            }) by {
                lemma_value_push(all, f@, k);
            }
            let mid = fields_map(all);
            assert(mid == was.remove(key@));
            let want = was.insert(key@, value@);
            assert forall|k: Seq<char>| self@.contains_key(k) <==> want.contains_key(k) by {
                assert(mid.contains_key(k) == was.remove(key@).contains_key(k));
                assert(value_in(all.push(f@), k) is Some <==> self@.contains_key(k));
            }
            assert forall|k: Seq<char>| #[trigger] self@.contains_key(k) implies self@[k]
                == want[k] by {
                assert(value_in(all.push(f@), k) == (if k == key@ {
                    Some(value@)
                } else {
                    value_in(all, k)
                }));
                if k != key@ {
                    assert(mid.contains_key(k) && mid[k] == was[k]);
                }
            }
            assert(self@ =~= want);
        }
    }

    /// A copy of the fields.
    pub fn copy(&self) -> (r: Fields)
        ensures
            r@ == self@,
    {
        let mut entries: Vec<Field> = Vec::new();
        let mut i: usize = 0;
        while i < self.entries.len()
            invariant
                i <= self.entries@.len(),
                entries@.len() == i,
                forall|j: int| 0 <= j < i ==> (#[trigger] entries@[j])@ == self.entries@[j]@,
            decreases self.entries@.len() - i,
        {
            entries.push(
                Field {
                    key: text(self.entries[i].key.as_str()),
                    value: self.entries[i].value.copy(),
                },
            );
            i = i + 1;
        }
        assert(field_models(entries@) =~= field_models(self.entries@));
        Fields { entries }
    }

    /// The keys, in order.
    pub fn keys(&self) -> (r: Vec<String>)
        ensures
            crate::order::ordered(texts(r@)),
            forall|k: Seq<char>| texts(r@).contains(k) <==> self@.contains_key(k),
    {
        let ghost all = field_models(self.entries@);
        let mut names: Vec<String> = Vec::new();
        let mut i: usize = 0;
        while i < self.entries.len()
            invariant
                i <= self.entries@.len(),
                all == field_models(self.entries@),
                names@.len() == i,
                forall|j: int| 0 <= j < i ==> (#[trigger] texts(names@)[j]) == all[j].key,
            decreases self.entries@.len() - i,
        {
            let ghost was = texts(names@);
            names.push(text(self.entries[i].key.as_str()));
            assert forall|j: int| 0 <= j < i + 1 implies (#[trigger] texts(names@)[j])
                == all[j].key by {
                if j < i {
                    assert(was[j] == all[j].key);
                }
            }
            i = i + 1;
        }
        proof {
            let t = texts(names@);
            assert forall|k: Seq<char>| t.contains(k) <==> self@.contains_key(k) by {
                lemma_value_in(all, k);
                if t.contains(k) {
                    let j = choose|j: int| 0 <= j < t.len() && t[j] == k;
                    assert(all[j].key == k);
                }
                if self@.contains_key(k) {
                    let j = choose|j: int| 0 <= j < all.len() && (#[trigger] all[j]).key == k;
                    assert(t[j] == k);
                }
            }
        }
        in_order(&names)
    }

    /// The text at a key: nothing where there is none, or no text.
    pub fn text_at(&self, key: &str) -> (r: Option<String>)
        ensures
            match r {
                Some(s) => text_in(self@, key@) == Some(s@),
                None => text_in(self@, key@) is None,
            },
    {
        match self.get(key) {
            Some(Json::Text(s)) => Some(text(s.as_str())),
            _ => None,
        }
    }

    /// Whether the key holds true.
    pub fn flag_at(&self, key: &str) -> (r: bool)
        ensures
            r == flag_in(self@, key@),
    {
        match self.get(key) {
            Some(Json::Bool(b)) => *b,
            _ => false,
        }
    }

    /// The whole number at a key.
    pub fn whole_at(&self, key: &str) -> (r: Option<u64>)
        ensures
            r == whole_in(self@, key@),
    {
        match self.get(key) {
            Some(Json::Whole(n)) => Some(*n),
            _ => None,
        }
    }

    /// Whether two objects say the same.
    pub fn equals(&self, other: &Fields) -> (r: bool)
        ensures
            r == (self@ == other@),
    {
        if !self.covers(other) || !other.covers(self) {
            return false;
        }
        proof {
            assert forall|k: Seq<char>| self@.contains_key(k) <==> other@.contains_key(k) by {}
            assert(self@ =~= other@);
        }
        true
    }

    /// Whether every field of another object is here, with the same value.
    fn covers(&self, other: &Fields) -> (r: bool)
        ensures
            r == (forall|k: Seq<char>| #[trigger]
                other@.contains_key(k) ==> self@.contains_key(k) && self@[k] == other@[k]),
    {
        let keys = other.keys();
        let ghost names = texts(keys@);
        let mut i: usize = 0;
        while i < keys.len()
            invariant
                i <= keys@.len(),
                names == texts(keys@),
                forall|k: Seq<char>| names.contains(k) <==> other@.contains_key(k),
                forall|j: int|
                    0 <= j < i ==> self@.contains_key(#[trigger] names[j]) && self@[names[j]]
                        == other@[names[j]],
            decreases keys@.len() - i,
        {
            let key: &str = keys[i].as_str();
            assert(names[i as int] == key@);
            assert(names.contains(key@));
            match (self.get(key), other.get(key)) {
                (Some(a), Some(b)) => {
                    if !a.equals(b) {
                        return false;
                    }
                },
                _ => {
                    return false;
                },
            }
            i = i + 1;
        }
        assert forall|k: Seq<char>| other@.contains_key(k) implies self@.contains_key(k) && self@[k]
            == other@[k] by {
            assert(names.contains(k));
            let j = choose|j: int| 0 <= j < names.len() && names[j] == k;
            assert(self@.contains_key(names[j]));
        }
        true
    }
}

/// The keys of an object, in order.
pub open spec fn ordered_keys(m: Map<Seq<char>, JsonModel>) -> Seq<Seq<char>> {
    choose|r: Seq<Seq<char>>| #[trigger]
        ordered(r) && forall|k: Seq<char>| r.contains(k) <==> m.contains_key(k)
}

/// The members of an object as compact JSON, in the order of their keys.
pub open spec fn object_members(m: Map<Seq<char>, JsonModel>) -> Seq<Seq<char>> {
    let keys = ordered_keys(m);
    Seq::new(keys.len(), |i: int| json_quoted(keys[i]) + ":"@ + json_text(m[keys[i]]))
}

/// An object as compact JSON.
pub open spec fn object_text(m: Map<Seq<char>, JsonModel>) -> Seq<char> {
    "{"@ + joined(object_members(m), ","@) + "}"@
}

impl Fields {
    /// The object as compact JSON.
    pub fn compact(&self) -> (r: String)
        ensures
            r@ == object_text(self@),
    {
        let keys = self.keys();
        let ghost names = texts(keys@);
        proof {
            lemma_order_unique(names, ordered_keys(self@));
        }
        let mut parts: Vec<String> = Vec::new();
        let mut i: usize = 0;
        while i < keys.len()
            invariant
                i <= keys@.len(),
                names == texts(keys@),
                names == ordered_keys(self@),
                forall|k: Seq<char>| names.contains(k) <==> self@.contains_key(k),
                texts(parts@) == object_members(self@).take(i as int),
            decreases keys@.len() - i,
        {
            let key: &str = keys[i].as_str();
            assert(names[i as int] == key@);
            assert(names.contains(key@));
            if let Some(v) = self.get(key) {
                let mut part = quote(key);
                part.append(":");
                part.append(v.compact().as_str());
                let ghost was = parts@;
                parts.push(part);
                proof {
                    assert(texts(parts@) =~= texts(was).push(part@));
                    assert(object_members(self@)[i as int] == part@);
                    assert(texts(parts@) =~= object_members(self@).take(i + 1));
                }
            }
            i = i + 1;
        }
        proof {
            assert(texts(parts@) =~= object_members(self@));
        }
        let mut r = text("{");
        r.append(join(&parts, ",").as_str());
        r.append("}");
        r
    }
}

/// The text at a key of a map.
pub open spec fn text_in(m: Map<Seq<char>, JsonModel>, key: Seq<char>) -> Option<Seq<char>> {
    if m.contains_key(key) && m[key] is Text {
        Some(m[key]->Text_0)
    } else {
        None
    }
}

/// Whether a key of a map holds true.
pub open spec fn flag_in(m: Map<Seq<char>, JsonModel>, key: Seq<char>) -> bool {
    m.contains_key(key) && m[key] == JsonModel::Bool(true)
}

/// The whole number at a key of a map.
pub open spec fn whole_in(m: Map<Seq<char>, JsonModel>, key: Seq<char>) -> Option<u64> {
    if m.contains_key(key) && m[key] is Whole {
        Some(m[key]->Whole_0)
    } else {
        None
    }
}

/// Objects as compact JSON, in a list.
pub open spec fn objects_text(v: Seq<Map<Seq<char>, JsonModel>>) -> Seq<char> {
    "["@ + joined(Seq::new(v.len(), |i: int| object_text(v[i])), ","@) + "]"@
}

/// What a list of objects is.
pub open spec fn object_models(v: Seq<Fields>) -> Seq<Map<Seq<char>, JsonModel>> {
    Seq::new(v.len(), |i: int| v[i]@)
}

impl Fields {
    /// The object in indented form.
    pub fn pretty(&self) -> (r: Option<String>)
        ensures
            match r {
                Some(s) => json_indented(object_text(self@)) == Some(s@),
                None => json_indented(object_text(self@)) is None,
            },
    {
        indented(self.compact().as_str())
    }
}

/// A list of objects in indented form.
pub fn pretty_list(rows: &Vec<Fields>) -> (r: Option<String>)
    ensures
        match r {
            Some(s) => json_indented(objects_text(object_models(rows@))) == Some(s@),
            None => json_indented(objects_text(object_models(rows@))) is None,
        },
{
    let ghost all = object_models(rows@);
    let ghost want = Seq::new(all.len(), |i: int| object_text(all[i]));
    let mut parts: Vec<String> = Vec::new();
    let mut i: usize = 0;
    while i < rows.len()
        invariant
            i <= rows@.len(),
            all == object_models(rows@),
            want == Seq::new(all.len(), |i: int| object_text(all[i])),
            texts(parts@) == want.take(i as int),
        decreases rows@.len() - i,
    {
        let ghost was = texts(parts@);
        let part = rows[i].compact();
        parts.push(part);
        i = i + 1;
        proof {
            assert(texts(parts@) =~= was.push(part@));
            assert(texts(parts@) =~= want.take(i as int));
        }
    }
    proof {
        assert(texts(parts@) =~= want);
    }
    let list = text("[").concat(join(&parts, ",").as_str()).concat("]");
    indented(list.as_str())
}

} // verus!
