//! What declaring a store, and setting what it declares, comes to.

use crate::append::{duration_ms, size_bytes};
use crate::bark::{
    boolean_key, declares, derived_of, identified, identity_decided, inherited_of, minted,
    origin_of, protected, provenance_of, retention_of, rfc3339_millis, signed, time_or_number,
    verdict_of, with_flag, with_policy, IdentityError, IdentitySide, IdentityStep, ManifestModel,
};
use crate::declaration::{
    all_texts, declaration_key, list_in, selection, unknown_fields, DeclarationProblem,
};
use crate::declare::{
    after_creates, after_sets, after_unsets, drift_phrases, flags_declared, is_time_format,
    manifest_set, regex_groups, value_set,
};
use crate::json::{text_in, ItemModel, JsonModel};
use crate::text::{decimal, split_once, trim};
use vstd::prelude::*;

verus! {

/// A store's identity, when it was made and what it was made from are facts: no
/// setting of them is taken. Every other key takes what it can mean: a duration,
/// a size, an expression with a group, a format of times, a path from the root,
/// true or false, and any text where the key means nothing here.
pub proof fn a_setting_is_taken_where_its_key_can_mean_it(k: Seq<char>, v: Seq<char>)
    ensures
        value_set(k, v) is Ok <==> {
            &&& k != "id"@ && k != "created"@ && k != "derived_from"@ && k != "derived_op"@
            &&& k == "retain"@ ==> duration_ms(v) is Value
            &&& k == "retain_size"@ ==> size_bytes(v) is Value
            &&& k == "timestamp_regex"@ ==> regex_groups(v) is Some && regex_groups(v)->Some_0 >= 2
            &&& k == "timestamp_format"@ ==> is_time_format(v)
            &&& k == "cursors"@ ==> v.len() > 0 && v[0] == '/'
            &&& (k == "index"@ || k == "wal"@ || k == "timestamp_utc"@ || k
                == "retain_unconsumed"@) ==> v == "true"@ || v == "false"@
        },
        value_set(k, v) is Ok && (k == "index"@ || k == "wal"@ || k == "timestamp_utc"@ || k
            == "retain_unconsumed"@) ==> value_set(k, v)->Ok_0 == JsonModel::Bool(v == "true"@),
        value_set(k, v) is Ok && k != "index"@ && k != "wal"@ && k != "timestamp_utc"@ && k
            != "retain_unconsumed"@ ==> value_set(k, v)->Ok_0 == JsonModel::Text(v),
{
    reveal_strlit("true");
    reveal_strlit("false");
    assert("true"@.len() != "false"@.len());
    lemma_boolean_keys();
}

proof fn lemma_boolean_keys()
    ensures
        forall|k: Seq<char>| #[trigger]
            boolean_key(k) ==> k != "retain"@ && k != "retain_size"@ && k != "timestamp_regex"@ && k
                != "timestamp_format"@ && k != "cursors"@ && !protected(k),
{
    reveal_strlit("index");
    reveal_strlit("wal");
    reveal_strlit("timestamp_utc");
    reveal_strlit("retain_unconsumed");
    reveal_strlit("retain");
    reveal_strlit("retain_size");
    reveal_strlit("timestamp_regex");
    reveal_strlit("timestamp_format");
    reveal_strlit("cursors");
    reveal_strlit("id");
    reveal_strlit("created");
    reveal_strlit("derived_from");
    reveal_strlit("derived_op");
    assert("index"@.len() == 5 && "wal"@.len() == 3 && "timestamp_utc"@.len() == 13
        && "retain_unconsumed"@.len() == 17 && "retain"@.len() == 6 && "retain_size"@.len() == 11
        && "timestamp_regex"@.len() == 15 && "timestamp_format"@.len() == 16 && "cursors"@.len()
        == 7 && "id"@.len() == 2 && "created"@.len() == 7 && "derived_from"@.len() == 12
        && "derived_op"@.len() == 10);
}

/// Whether a setting, written as a key, an equals sign and a value, is of a key.
pub open spec fn sets_key(kv: Seq<char>, k: Seq<char>) -> bool {
    split_once(kv, '=') is Some && trim(split_once(kv, '=')->Some_0.0) == k
}

/// The value that a setting is of.
pub open spec fn value_of(kv: Seq<char>) -> Seq<char> {
    split_once(kv, '=')->Some_0.1
}

/// A key that is set several times means what it was set to last, and a key
/// that is not set means what it meant.
pub proof fn the_last_setting_of_a_key_stands(
    m: ManifestModel,
    sets: Seq<Seq<char>>,
    n: int,
    k: Seq<char>,
    i: int,
)
    requires
        0 <= n <= sets.len(),
        after_sets(m, sets, n) is Ok,
    ensures
        forall|j: int| 0 <= j < n ==> split_once(#[trigger] sets[j], '=') is Some,
        0 <= i < n && sets_key(sets[i], k) && (forall|j: int|
            i < j < n ==> !sets_key(#[trigger] sets[j], k)) ==> after_sets(
            m,
            sets,
            n,
        )->Ok_0.contains_key(k) && value_set(k, value_of(sets[i])) is Ok && after_sets(
            m,
            sets,
            n,
        )->Ok_0[k] == value_set(k, value_of(sets[i]))->Ok_0,
        (forall|j: int| 0 <= j < n ==> !sets_key(#[trigger] sets[j], k)) ==> {
            &&& after_sets(m, sets, n)->Ok_0.contains_key(k) == m.contains_key(k)
            &&& m.contains_key(k) ==> after_sets(m, sets, n)->Ok_0[k] == m[k]
        },
    decreases n,
{
    if n > 0 {
        the_last_setting_of_a_key_stands(m, sets, n - 1, k, i);
        assert forall|j: int| 0 <= j < n implies split_once(#[trigger] sets[j], '=') is Some by {
            if j < n - 1 {
                assert(split_once(sets[j], '=') is Some);
            }
        }
        if forall|j: int| 0 <= j < n ==> !sets_key(#[trigger] sets[j], k) {
            assert(!sets_key(sets[n - 1], k));
        }
        if i < n - 1 && (forall|j: int| i < j < n ==> !sets_key(#[trigger] sets[j], k)) {
            assert(!sets_key(sets[n - 1], k));
        }
    }
}

/// A key that is unset means nothing, and one that is not unset means what it
/// meant.
pub proof fn what_is_unset_is_gone(
    m: ManifestModel,
    unsets: Seq<Seq<char>>,
    n: int,
    k: Seq<char>,
)
    requires
        0 <= n <= unsets.len(),
        after_unsets(m, unsets, n) is Ok,
    ensures
        (exists|j: int| 0 <= j < n && trim(#[trigger] unsets[j]) == k) ==> !after_unsets(
            m,
            unsets,
            n,
        )->Ok_0.contains_key(k) && !protected(k),
        (forall|j: int| 0 <= j < n ==> trim(#[trigger] unsets[j]) != k) ==> {
            &&& after_unsets(m, unsets, n)->Ok_0.contains_key(k) == m.contains_key(k)
            &&& m.contains_key(k) ==> after_unsets(m, unsets, n)->Ok_0[k] == m[k]
        },
    decreases n,
{
    if n > 0 {
        what_is_unset_is_gone(m, unsets, n - 1, k);
        if forall|j: int| 0 <= j < n ==> trim(#[trigger] unsets[j]) != k {
            assert(trim(unsets[n - 1]) != k);
        }
        if exists|j: int| 0 <= j < n && trim(#[trigger] unsets[j]) == k {
            let j = choose|j: int| 0 <= j < n && trim(#[trigger] unsets[j]) == k;
            if j < n - 1 {
                assert(trim(unsets[j]) == k);
            }
        }
    }
}

/// A manifest that was set never names half of a time stamp, nor declares a
/// policy that is none; and setting nothing is refused.
pub proof fn what_was_set_makes_sense_as_a_whole(
    m: ManifestModel,
    sets: Seq<Seq<char>>,
    unsets: Seq<Seq<char>>,
)
    ensures
        manifest_set(m, Seq::empty(), Seq::empty()) is Err,
        manifest_set(m, sets, unsets) is Ok ==> {
            let now = manifest_set(m, sets, unsets)->Ok_0;
            &&& sets.len() > 0 || unsets.len() > 0
            &&& now.contains_key("timestamp_regex"@) <==> now.contains_key("timestamp_format"@)
            &&& retention_of(now) is Ok
            &&& after_sets(m, sets, sets.len() as int) is Ok
            &&& now == after_unsets(
                after_sets(m, sets, sets.len() as int)->Ok_0,
                unsets,
                unsets.len() as int,
            )->Ok_0
        },
{
}

/// What a store is created with means what it was set to last, whatever the
/// flags say of the same key.
pub proof fn the_last_setting_of_a_creation_stands(
    m: ManifestModel,
    sets: Seq<Seq<char>>,
    n: int,
    k: Seq<char>,
    i: int,
)
    requires
        0 <= n <= sets.len(),
        after_creates(m, sets, n) is Ok,
    ensures
        0 <= i < n && sets_key(sets[i], k) && (forall|j: int|
            i < j < n ==> !sets_key(#[trigger] sets[j], k)) ==> after_creates(
            m,
            sets,
            n,
        )->Ok_0.contains_key(k) && after_creates(m, sets, n)->Ok_0[k] == (if k == "index"@ || k
            == "wal"@ || k == "timestamp_utc"@ || k == "retain_unconsumed"@ {
            JsonModel::Bool(value_of(sets[i]) == "true"@)
        } else {
            JsonModel::Text(value_of(sets[i]))
        }) && (k == "cursors"@ ==> value_of(sets[i]).len() > 0 && value_of(sets[i])[0] == '/'),
        (forall|j: int| 0 <= j < n ==> !sets_key(#[trigger] sets[j], k)) ==> {
            &&& after_creates(m, sets, n)->Ok_0.contains_key(k) == m.contains_key(k)
            &&& m.contains_key(k) ==> after_creates(m, sets, n)->Ok_0[k] == m[k]
        },
    decreases n,
{
    reveal_strlit("true");
    reveal_strlit("false");
    assert("true"@.len() != "false"@.len());
    if n > 0 {
        the_last_setting_of_a_creation_stands(m, sets, n - 1, k, i);
        if forall|j: int| 0 <= j < n ==> !sets_key(#[trigger] sets[j], k) {
            assert(!sets_key(sets[n - 1], k));
        }
        if i < n - 1 && (forall|j: int| i < j < n ==> !sets_key(#[trigger] sets[j], k)) {
            assert(!sets_key(sets[n - 1], k));
        }
    }
}

/// Each flag of a creation declares its own key and no other, and a limit that
/// is none is refused.
pub proof fn each_flag_declares_its_own_key(
    index: bool,
    wal: bool,
    retain: Option<Seq<char>>,
    retain_size: Option<Seq<char>>,
    retain_unconsumed: bool,
)
    ensures
        ({
            let r = flags_declared(index, wal, retain, retain_size, retain_unconsumed);
            let m = r->Ok_0;
            &&& r is Ok <==> (retain is Some ==> duration_ms(retain->Some_0) is Value) && (
            retain_size is Some ==> size_bytes(retain_size->Some_0) is Value)
            &&& r is Ok ==> {
                &&& m.contains_key("index"@) == index
                &&& index ==> m["index"@] == JsonModel::Bool(true)
                &&& m.contains_key("wal"@) == wal
                &&& wal ==> m["wal"@] == JsonModel::Bool(true)
                &&& m.contains_key("retain_unconsumed"@) == retain_unconsumed
                &&& retain_unconsumed ==> m["retain_unconsumed"@] == JsonModel::Bool(true)
                &&& m.contains_key("retain"@) == (retain is Some)
                &&& retain is Some ==> m["retain"@] == JsonModel::Text(retain->Some_0)
                &&& m.contains_key("retain_size"@) == (retain_size is Some)
                &&& retain_size is Some ==> m["retain_size"@] == JsonModel::Text(
                    retain_size->Some_0,
                )
                &&& forall|k: Seq<char>| #[trigger]
                    m.contains_key(k) ==> k == "index"@ || k == "wal"@ || k == "retain"@ || k
                        == "retain_size"@ || k == "retain_unconsumed"@
            }
        }),
{
    reveal_strlit("index");
    reveal_strlit("wal");
    reveal_strlit("retain_unconsumed");
    reveal_strlit("retain");
    reveal_strlit("retain_size");
    assert("index"@.len() == 5 && "wal"@.len() == 3 && "retain_unconsumed"@.len() == 17
        && "retain"@.len() == 6 && "retain_size"@.len() == 11);
}

/// Turning a flag on, or taking a policy over, changes no other key.
pub proof fn a_flag_changes_no_other_key(
    m: ManifestModel,
    key: Seq<char>,
    retain: Option<Seq<char>>,
    retain_size: Option<Seq<char>>,
    k: Seq<char>,
)
    ensures
        with_flag(Some(m), key)[key] == JsonModel::Bool(true),
        with_flag(Some(m), key).contains_key(key),
        with_flag(None, key).contains_key(k) <==> k == key,
        k != key ==> with_flag(Some(m), key).contains_key(k) == m.contains_key(k) && (
        m.contains_key(k) ==> with_flag(Some(m), key)[k] == m[k]),
        k != "retain"@ && k != "retain_size"@ ==> with_policy(m, retain, retain_size).contains_key(
            k,
        ) == m.contains_key(k) && (m.contains_key(k) ==> with_policy(m, retain, retain_size)[k]
            == m[k]),
        retain is Some ==> with_policy(m, retain, retain_size)["retain"@] == JsonModel::Text(
            retain->Some_0,
        ),
        retain is None ==> with_policy(m, retain, retain_size).contains_key("retain"@)
            == m.contains_key("retain"@) && (m.contains_key("retain"@) ==> with_policy(
            m,
            retain,
            retain_size,
        )["retain"@] == m["retain"@]),
        retain_size is Some ==> with_policy(m, retain, retain_size)["retain_size"@]
            == JsonModel::Text(retain_size->Some_0),
        retain_size is None ==> with_policy(m, retain, retain_size).contains_key("retain_size"@)
            == m.contains_key("retain_size"@) && (m.contains_key("retain_size"@) ==> with_policy(
            m,
            retain,
            retain_size,
        )["retain_size"@] == m["retain_size"@]),
{
    reveal_strlit("retain");
    reveal_strlit("retain_size");
    assert("retain"@.len() == 6 && "retain_size"@.len() == 11);
}

/// A store has drifted exactly where a key that is asked for is not declared as
/// asked, and each such key is told of.
pub proof fn drift_is_told_where_there_is_any(
    existing: ManifestModel,
    declared: ManifestModel,
    keys: Seq<Seq<char>>,
    n: int,
)
    requires
        0 <= n <= keys.len(),
    ensures
        drift_phrases(existing, declared, keys, n).len() == 0 <==> forall|i: int|
            0 <= i < n ==> existing.contains_key(#[trigger] keys[i]) && existing[keys[i]]
                == declared[keys[i]],
        n > 0 && !(existing.contains_key(keys[n - 1]) && existing[keys[n - 1]] == declared[keys[n
            - 1]]) ==> drift_phrases(existing, declared, keys, n).len() == drift_phrases(
            existing,
            declared,
            keys,
            n - 1,
        ).len() + 1,
    decreases n,
{
    if n > 0 {
        drift_is_told_where_there_is_any(existing, declared, keys, n - 1);
        if forall|i: int|
            0 <= i < n ==> existing.contains_key(#[trigger] keys[i]) && existing[keys[i]]
                == declared[keys[i]] {
            assert(existing.contains_key(keys[n - 1]));
        }
    }
}

/// The manifest and the index agree on an identity where both have the same one;
/// they disagree only where both have one.
pub proof fn two_identities_are_told_apart(manifest: Option<Seq<char>>, index: Option<Seq<char>>)
    ensures
        verdict_of(manifest, index) is Consistent <==> manifest is Some && manifest == index,
        verdict_of(manifest, index) is Disagree <==> manifest is Some && index is Some && manifest
            != index,
        verdict_of(manifest, index) is ManifestOnly <==> manifest is Some && index is None,
        verdict_of(manifest, index) is IndexOnly <==> manifest is None && index is Some,
        verdict_of(manifest, index) is Neither <==> manifest is None && index is None,
{
}

/// A random identity is the sixteen bytes that were drawn, but for the bits that
/// say what kind of identity it is.
pub proof fn a_minted_identity_says_its_kind(b: Seq<u8>)
    requires
        b.len() == 16,
    ensures
        minted(b).len() == 16,
        forall|i: int| 0 <= i < 16 && i != 6 && i != 8 ==> minted(b)[i] == b[i],
        minted(b)[6] / 16 == 4,
        minted(b)[6] % 16 == b[6] % 16,
        minted(b)[8] / 64 == 2,
        minted(b)[8] % 64 == b[8] % 64,
{
    let x = b[6];
    let y = b[8];
    assert(((x & 0x0f) | 0x40) / 16 == 4 && ((x & 0x0f) | 0x40) % 16 == x % 16) by (bit_vector);
    assert(((y & 0x3f) | 0x80) / 64 == 2 && ((y & 0x3f) | 0x80) % 64 == y % 64) by (bit_vector);
}

/// What is said of a store to others leaves out what it is called here, how it
/// is kept and read here, and what was said of it before; all else is said.
pub proof fn what_is_local_is_not_said(m: ManifestModel, k: Seq<char>)
    ensures
        provenance_of(m).contains_key(k) ==> m.contains_key(k) && provenance_of(m)[k] == m[k],
        m.contains_key(k) ==> (provenance_of(m).contains_key(k) <==> !(k == "id"@ || k == "name"@
            || k == "created"@ || k == "derived_from"@ || k == "derived_op"@ || k
            == "window_from"@ || k == "window_to"@ || k == "index"@ || k == "wal"@ || k
            == "retain"@ || k == "retain_size"@ || k == "retain_unconsumed"@ || k == "cursors"@
            || k == "timestamp_regex"@ || k == "timestamp_format"@ || k == "timestamp_utc"@ || k
            == "command"@ || k == "pattern"@ || k == "timberfs.store.id"@ || k
            == "timberfs.store.path"@ || k == "timberfs.routed_from"@)),
{
}

/// A store that is made from another takes over what describes it, and neither
/// whose it is nor how the other is kept.
pub proof fn what_is_made_from_a_store_is_its_own(m: ManifestModel, op: Seq<char>, k: Seq<char>)
    ensures
        inherited_of(m).contains_key(k) ==> m.contains_key(k) && inherited_of(m)[k] == m[k],
        m.contains_key(k) ==> (inherited_of(m).contains_key(k) <==> !(k == "id"@ || k
            == "created"@ || k == "derived_from"@ || k == "derived_op"@ || k == "window_from"@ || k
            == "window_to"@ || k == "index"@ || k == "wal"@ || k == "retain"@ || k
            == "retain_size"@ || k == "retain_unconsumed"@)),
        derived_of(Some(m), op)["derived_op"@] == JsonModel::Text(op),
        derived_of(None, op)["derived_op"@] == JsonModel::Text(op),
        derived_of(None, op).contains_key(k) <==> k == "derived_op"@,
        text_in(m, "id"@) is None ==> !derived_of(Some(m), op).contains_key("derived_from"@),
        !m.contains_key(k) && k != "derived_from"@ && k != "derived_op"@ ==> !derived_of(
            Some(m),
            op,
        ).contains_key(k),
{
    reveal_strlit("derived_from");
    reveal_strlit("derived_op");
    assert("derived_from"@.len() != "derived_op"@.len());
}

/// A store comes from the one that its manifest names, if it names one.
pub proof fn an_origin_is_what_is_named(m: ManifestModel)
    ensures
        origin_of(m) is Some <==> text_in(m, "timberfs.store.id"@) is Some && text_in(
            m,
            "timberfs.store.id"@,
        )->Some_0.len() > 0,
        origin_of(m) is Some ==> origin_of(m) == text_in(m, "timberfs.store.id"@),
{
}

// ------------------------------------------------------------- declarations

/// A follower's directory that holds another's declaration is refused; else a
/// selection is what it says, or the one store that an older declaration names,
/// and there is one unless neither is said.
pub proof fn a_selection_is_what_is_said(m: ManifestModel, file: Seq<char>, name: Seq<char>)
    ensures
        ({
            let other = text_in(m, "name"@) is Some && text_in(m, "name"@) != Some(name);
            let said = text_in(m, "select"@) is Some && trim(text_in(m, "select"@)->Some_0).len()
                > 0;
            let one = text_in(m, "store"@) is Some && text_in(m, "store"@)->Some_0.len() > 0;
            let r = selection(m, file, name);
            &&& r is Ok <==> !other && (said || one)
            &&& !other && said ==> Some(r->Ok_0) == text_in(m, "select"@)
            &&& !other && !said && one ==> r->Ok_0 == "[id="@ + text_in(m, "store"@)->Some_0
                + "]"@
            &&& other ==> r->Err_0 is Copied
            &&& !other && !said && !one ==> r->Err_0 is NoSelection
        }),
{
}

/// A list of texts is read as it stands, in order, and one thing among them that
/// is no text is refused; nothing at all is an empty list.
pub proof fn a_list_is_read_as_it_stands(m: ManifestModel, key: Seq<char>, items: Seq<ItemModel>)
    ensures
        !m.contains_key(key) || m[key] is Null ==> list_in(m, key) == Ok::<
            Seq<Seq<char>>,
            DeclarationProblem,
        >(Seq::empty()),
        m.contains_key(key) && !(m[key] is Null) && !(m[key] is List) ==> list_in(m, key) is Err,
        m.contains_key(key) && m[key] is List ==> list_in(m, key) == all_texts(
            key,
            m[key]->List_0,
        ),
        all_texts(key, items) is Ok <==> forall|i: int|
            0 <= i < items.len() ==> (#[trigger] items[i]) is Text,
        all_texts(key, items) is Ok ==> all_texts(key, items)->Ok_0.len() == items.len() && (
        forall|i: int|
            0 <= i < items.len() ==> items[i] == ItemModel::Text(
                #[trigger] all_texts(key, items)->Ok_0[i],
            )),
    decreases items.len(),
{
    if items.len() > 0 {
        let front = items.drop_last();
        a_list_is_read_as_it_stands(m, key, front);
        assert(items[items.len() - 1] == items.last());
        assert forall|i: int| 0 <= i < front.len() implies #[trigger] front[i] == items[i] by {}
        if forall|i: int| 0 <= i < items.len() ==> (#[trigger] items[i]) is Text {
            assert(items[items.len() - 1] is Text);
            assert forall|i: int| 0 <= i < front.len() implies (#[trigger] front[i]) is Text by {
                assert(items[i] is Text);
            }
        }
        if all_texts(key, items) is Ok {
            let all = all_texts(key, items)->Ok_0;
            let some = all_texts(key, front)->Ok_0;
            assert forall|i: int| 0 <= i < items.len() implies items[i] == ItemModel::Text(
                #[trigger] all[i],
            ) by {
                if i < front.len() {
                    assert(all[i] == some[i]);
                    assert(front[i] == ItemModel::Text(some[i]));
                }
            }
            assert forall|i: int| 0 <= i < items.len() implies (#[trigger] items[i]) is Text by {
                assert(items[i] == ItemModel::Text(all[i]));
            }
        }
    }
}

/// What a declaration says that means nothing here is kept as it stands, and
/// nothing else is.
pub proof fn what_is_not_understood_is_kept(m: ManifestModel, k: Seq<char>)
    ensures
        unknown_fields(m).contains_key(k) <==> m.contains_key(k) && !(k == "name"@ || k == "store"@
            || k == "select"@ || k == "retaining"@ || k == "command"@ || k == "args"@ || k
            == "type"@ || k == "endpoint"@ || k == "path"@ || k == "follow_from"@ || k
            == "look_in"@ || k == "created"@),
        unknown_fields(m).contains_key(k) ==> unknown_fields(m)[k] == m[k],
        declaration_key(k) <==> (k == "name"@ || k == "store"@ || k == "select"@ || k
            == "retaining"@ || k == "command"@ || k == "args"@ || k == "type"@ || k == "endpoint"@
            || k == "path"@ || k == "follow_from"@ || k == "look_in"@ || k == "created"@),
{
}

/// Everything that a declaration says is read from its own key.
pub proof fn each_part_of_a_declaration_has_its_own_key(
    m: ManifestModel,
    file: Seq<char>,
    name: Seq<char>,
    select: Seq<char>,
)
    ensures
        ({
            let r = crate::declaration::declaration(m, file, name, select);
            let d = r->Ok_0;
            &&& r is Ok <==> list_in(m, "command"@) is Ok && list_in(m, "command"@)->Ok_0.len() > 0
                && list_in(m, "look_in"@) is Ok
            &&& r is Ok ==> {
                &&& d.name == name
                &&& d.select == select
                &&& d.retaining == (m.contains_key("retaining"@) && m["retaining"@]
                    == JsonModel::Bool(true))
                &&& Ok::<Seq<Seq<char>>, DeclarationProblem>(d.command) == list_in(m, "command"@)
                &&& Ok::<Seq<Seq<char>>, DeclarationProblem>(d.look_in) == list_in(m, "look_in"@)
                &&& d.follow_from == text_in(m, "follow_from"@)
                &&& text_in(m, "created"@) is Some ==> Some(d.created) == text_in(m, "created"@)
                &&& text_in(m, "created"@) is None ==> d.created.len() == 0
                &&& d.extra == unknown_fields(m)
            }
        }),
{
}

/// An identity is made only where there is none, and kept only where it is
/// there; asking for both is refused, and asking for neither says how things
/// stand.
pub proof fn an_identity_is_made_only_where_there_is_none(
    mint: bool,
    keep: Option<IdentitySide>,
    manifest: Option<Seq<char>>,
    index: Option<Seq<char>>,
    r: Result<IdentityStep, IdentityError>,
)
    requires
        identity_decided(mint, keep, manifest, index, r),
    ensures
        r is Ok && r->Ok_0 is Mint <==> mint && keep is None && manifest is None && index is None,
        r is Ok && r->Ok_0 is Settle ==> !mint && keep is Some,
        r is Ok && r->Ok_0 is Settle && keep == Some(IdentitySide::Index) ==> index == Some(
            r->Ok_0->Settle_0@,
        ),
        r is Ok && r->Ok_0 is Settle && keep == Some(IdentitySide::Manifest) ==> manifest == Some(
            r->Ok_0->Settle_0@,
        ),
        !mint && keep == Some(IdentitySide::Index) && index is Some ==> r is Ok,
        !mint && keep == Some(IdentitySide::Manifest) && manifest is Some ==> r is Ok,
        !mint && keep is None ==> r is Ok && r->Ok_0 is Report && r->Ok_0->Report_0 == verdict_of(
            manifest,
            index,
        ),
        mint && keep is Some ==> r is Err && r->Err_0 is MintAndKeep,
        mint && keep is None && (manifest is Some || index is Some) ==> r is Err
            && r->Err_0 is AlreadyIdentified,
{
}

/// A time is said as a time where one can be named, and as its number otherwise;
/// a number is taken for a time before the first where its highest bit is set.
pub proof fn a_time_is_said_as_a_time(ms: u64)
    ensures
        ms <= 0x7fff_ffff_ffff_ffff ==> signed(ms) == ms,
        ms > 0x7fff_ffff_ffff_ffff ==> signed(ms) + 0x1_0000_0000_0000_0000 == ms,
        rfc3339_millis(signed(ms)) is Some ==> Some(time_or_number(ms)) == rfc3339_millis(
            signed(ms),
        ),
        rfc3339_millis(signed(ms)) is None ==> time_or_number(ms) == decimal(ms as nat),
{
}

/// An identity and a date are given where they are missing, and each only there.
pub proof fn what_is_missing_is_given(m: ManifestModel, id: Seq<char>, created: Seq<char>)
    ensures
        identified(m, id, created).contains_key("id"@),
        identified(m, id, created).contains_key("created"@),
        !m.contains_key("id"@) ==> identified(m, id, created)["id"@] == JsonModel::Text(id),
        !m.contains_key("created"@) ==> identified(m, id, created)["created"@] == JsonModel::Text(
            created,
        ),
        m.contains_key("created"@) ==> identified(m, id, created)["created"@] == m["created"@],
        forall|k: Seq<char>| #[trigger]
            identified(m, id, created).contains_key(k) ==> m.contains_key(k) || k == "id"@ || k
                == "created"@,
{
    reveal_strlit("id");
    reveal_strlit("created");
    assert("id"@.len() != "created"@.len());
}

/// A manifest declares a flag where it says that it is true, and there only.
pub proof fn a_flag_is_declared_where_it_is_true(m: Option<ManifestModel>, key: Seq<char>)
    ensures
        declares(m, key) <==> m is Some && m->Some_0.contains_key(key) && m->Some_0[key]
            == JsonModel::Bool(true),
{
}

} // verus!
