//! Declaring a store's properties: what `create` and `set` make of their
//! arguments, validated before anything is written.

use crate::append::{duration_ms, parse_duration_ms, parse_size_bytes, size_bytes};
use crate::bark::{
    boolean_key, opt_str, protected, retention_from_map, retention_of, ManifestError,
    ManifestModel, ManifestProblem,
};
use crate::json::{json_text, ordered_keys, Fields, Json, JsonModel};
use crate::order::{lemma_order_unique, ordered};
use crate::paths::{absolute, is_absolute};
use crate::text::{
    chars_of, join, joined, same, split_at_char, split_once, text, text_of, texts, trim, trimmed,
};
use vstd::prelude::*;
use vstd::string::StringExecFns;

verus! {

/// How many groups a regular expression has, the whole match among them:
/// nothing where the text is no regular expression.
pub uninterp spec fn regex_groups(pattern: Seq<char>) -> Option<nat>;

/// `regex::Regex::new` and `captures_len`: how many groups the expression has,
/// the whole match counted as one, and nothing where it does not compile.
#[verifier::external_body]
fn groups_of(pattern: &str) -> (r: Option<usize>)
    ensures
        match r {
            Some(n) => regex_groups(pattern@) == Some(n as nat),
            None => regex_groups(pattern@) is None,
        },
{
    regex::Regex::new(pattern).ok().map(|r| r.captures_len())
}

/// Whether a text is a time format without an item that cannot be read.
pub uninterp spec fn is_time_format(format: Seq<char>) -> bool;

/// `chrono::format::StrftimeItems::new`: whether no item of the format is an
/// error.
#[verifier::external_body]
fn time_format_ok(format: &str) -> (r: bool)
    ensures
        r == is_time_format(format@),
{
    !chrono::format::StrftimeItems::new(format)
        .any(|i| matches!(i, chrono::format::Item::Error))
}

/// A value from the command line, as the manifest should hold it.
pub open spec fn value_declared(k: Seq<char>, v: Seq<char>) -> Result<JsonModel, ManifestProblem> {
    if !boolean_key(k) {
        Ok(JsonModel::Text(v))
    } else if v == "true"@ {
        Ok(JsonModel::Bool(true))
    } else if v == "false"@ {
        Ok(JsonModel::Bool(false))
    } else {
        Err(ManifestProblem::NotTrueOrFalse { key: k })
    }
}

/// A `KEY=VALUE` from the command line, as the manifest should hold it.
pub fn declared_value(k: &str, v: &str) -> (r: Result<Json, ManifestError>)
    ensures
        match r {
            Ok(value) => value_declared(k@, v@) == Ok::<JsonModel, ManifestProblem>(value@),
            Err(e) => value_declared(k@, v@) == Err::<JsonModel, ManifestProblem>(e@),
        },
{
    if !(same(k, "index") || same(k, "wal") || same(k, "timestamp_utc") || same(
        k,
        "retain_unconsumed",
    )) {
        return Ok(Json::Text(text(v)));
    }
    if same(v, "true") {
        Ok(Json::Bool(true))
    } else if same(v, "false") {
        Ok(Json::Bool(false))
    } else {
        Err(ManifestError::NotTrueOrFalse { key: text(k) })
    }
}

/// The directory this store's consumers keep their positions in must be an
/// absolute path: a relative one resolves against the directory of whichever
/// daemon reads it next, and a wrong value is silent.
pub fn validate_cursors_dir(v: &str) -> (r: Result<(), ManifestError>)
    ensures
        match r {
            Ok(_) => is_absolute(v@),
            Err(e) => !is_absolute(v@) && e@ == ManifestProblem::RelativeCursors,
        },
{
    if absolute(v) {
        Ok(())
    } else {
        Err(ManifestError::RelativeCursors)
    }
}

/// Whether a time's expression can be used, given its groups: the timestamp
/// stands in a group of its own.
pub open spec fn regex_problem(groups: Option<nat>) -> Option<ManifestProblem> {
    match groups {
        None => Some(ManifestProblem::BadRegex),
        Some(n) => if n < 2 {
            Some(ManifestProblem::NoCaptureGroup)
        } else {
            None
        },
    }
}

/// Whether a time's expression can be used, given its groups.
pub fn check_groups(groups: Option<usize>) -> (r: Result<(), ManifestError>)
    ensures
        ({
            let g = match groups {
                Some(n) => Some(n as nat),
                None => None,
            };
            match r {
                Ok(_) => regex_problem(g) is None,
                Err(e) => regex_problem(g) == Some(e@),
            }
        }),
{
    match groups {
        None => Err(ManifestError::BadRegex),
        Some(n) => if n < 2 {
            Err(ManifestError::NoCaptureGroup)
        } else {
            Ok(())
        },
    }
}

// ---------------------------------------------------------------------- set

/// The value that `set` gives a key.
pub open spec fn value_set(k: Seq<char>, v: Seq<char>) -> Result<JsonModel, ManifestProblem> {
    if protected(k) {
        Err(ManifestProblem::Protected { key: k })
    } else if k == "retain"@ && !(duration_ms(v) is Value) {
        Err(ManifestProblem::Duration(v, duration_ms(v)))
    } else if k == "retain_size"@ && !(size_bytes(v) is Value) {
        Err(ManifestProblem::Size(v, size_bytes(v)))
    } else if k == "timestamp_regex"@ && regex_problem(regex_groups(v)) is Some {
        Err(regex_problem(regex_groups(v))->Some_0)
    } else if k == "timestamp_format"@ && !is_time_format(v) {
        Err(ManifestProblem::BadTimeFormat)
    } else if k == "cursors"@ && !is_absolute(v) {
        Err(ManifestProblem::RelativeCursors)
    } else {
        value_declared(k, v)
    }
}

/// The value that `set` gives a key. Known settings are checked; everything
/// else is free-form provenance.
pub fn set_value(k: &str, v: &str) -> (r: Result<Json, ManifestError>)
    ensures
        match r {
            Ok(value) => value_set(k@, v@) == Ok::<JsonModel, ManifestProblem>(value@),
            Err(e) => value_set(k@, v@) == Err::<JsonModel, ManifestProblem>(e@),
        },
{
    if same(k, "id") || same(k, "created") || same(k, "derived_from") || same(k, "derived_op") {
        return Err(ManifestError::Protected { key: text(k) });
    }
    if same(k, "retain") {
        if let Err(e) = parse_duration_ms(v) {
            return Err(ManifestError::Duration(e));
        }
    }
    if same(k, "retain_size") {
        if let Err(e) = parse_size_bytes(v) {
            return Err(ManifestError::Size(e));
        }
    }
    proof {
        lemma_keys_differ();
    }
    if same(k, "timestamp_regex") {
        if let Err(e) = check_groups(groups_of(v)) {
            return Err(e);
        }
    }
    if same(k, "timestamp_format") && !time_format_ok(v) {
        return Err(ManifestError::BadTimeFormat);
    }
    if same(k, "cursors") {
        if let Err(e) = validate_cursors_dir(v) {
            return Err(e);
        }
    }
    declared_value(k, v)
}

proof fn lemma_keys_differ()
    ensures
        "retain"@ != "retain_size"@,
        "timestamp_regex"@ != "timestamp_format"@,
{
    reveal_strlit("retain");
    reveal_strlit("retain_size");
    reveal_strlit("timestamp_regex");
    reveal_strlit("timestamp_format");
    assert("retain"@.len() != "retain_size"@.len());
    assert("timestamp_regex"@.len() != "timestamp_format"@.len());
}

/// What one `KEY=VALUE` does to a manifest.
pub open spec fn set_step(m: ManifestModel, kv: Seq<char>) -> Result<
    ManifestModel,
    ManifestProblem,
> {
    match split_once(kv, '=') {
        None => Err(ManifestProblem::NotAPair { got: kv }),
        Some((k, v)) => match value_set(trim(k), v) {
            Err(e) => Err(e),
            Ok(value) => Ok(m.insert(trim(k), value)),
        },
    }
}

/// What the first `n` settings do to a manifest.
pub open spec fn after_sets(m: ManifestModel, sets: Seq<Seq<char>>, n: int) -> Result<
    ManifestModel,
    ManifestProblem,
>
    decreases n,
{
    if n <= 0 {
        Ok(m)
    } else {
        match after_sets(m, sets, n - 1) {
            Err(e) => Err(e),
            Ok(done) => set_step(done, sets[n - 1]),
        }
    }
}

/// What taking the first `n` keys out does to a manifest.
pub open spec fn after_unsets(m: ManifestModel, unsets: Seq<Seq<char>>, n: int) -> Result<
    ManifestModel,
    ManifestProblem,
>
    decreases n,
{
    if n <= 0 {
        Ok(m)
    } else {
        match after_unsets(m, unsets, n - 1) {
            Err(e) => Err(e),
            Ok(done) => {
                let k = trim(unsets[n - 1]);
                if protected(k) {
                    Err(ManifestProblem::Protected { key: k })
                } else {
                    Ok(done.remove(k))
                }
            },
        }
    }
}

/// Whether a whole manifest can stand: a time's expression and its format go
/// together, and the retention it declares is one. Checked against the whole
/// result, not just what one invocation set.
pub open spec fn whole_problem(m: ManifestModel) -> Option<ManifestProblem> {
    if m.contains_key("timestamp_regex"@) != m.contains_key("timestamp_format"@) {
        Some(ManifestProblem::UnpairedTimeFormat)
    } else {
        match retention_of(m) {
            Err(e) => Some(e),
            Ok(_) => None,
        }
    }
}

/// The manifest that `set` writes.
pub open spec fn manifest_set(
    m: ManifestModel,
    sets: Seq<Seq<char>>,
    unsets: Seq<Seq<char>>,
) -> Result<ManifestModel, ManifestProblem> {
    if sets.len() == 0 && unsets.len() == 0 {
        Err(ManifestProblem::NothingToDo)
    } else {
        match after_sets(m, sets, sets.len() as int) {
            Err(e) => Err(e),
            Ok(a) => match after_unsets(a, unsets, unsets.len() as int) {
                Err(e) => Err(e),
                Ok(b) => match whole_problem(b) {
                    Some(e) => Err(e),
                    None => Ok(b),
                },
            },
        }
    }
}

proof fn lemma_sets_error(m: ManifestModel, sets: Seq<Seq<char>>, n: int, k: int)
    requires
        0 <= n <= k,
        after_sets(m, sets, n) is Err,
    ensures
        after_sets(m, sets, k) == after_sets(m, sets, n),
    decreases k,
{
    if n < k {
        lemma_sets_error(m, sets, n, k - 1);
    }
}

proof fn lemma_unsets_error(m: ManifestModel, unsets: Seq<Seq<char>>, n: int, k: int)
    requires
        0 <= n <= k,
        after_unsets(m, unsets, n) is Err,
    ensures
        after_unsets(m, unsets, k) == after_unsets(m, unsets, n),
    decreases k,
{
    if n < k {
        lemma_unsets_error(m, unsets, n, k - 1);
    }
}

fn apply_sets(map: &mut Fields, sets: &Vec<String>) -> (r: Result<(), ManifestError>)
    ensures
        match r {
            Ok(_) => after_sets(old(map)@, texts(sets@), sets@.len() as int) == Ok::<
                ManifestModel,
                ManifestProblem,
            >(final(map)@),
            Err(e) => after_sets(old(map)@, texts(sets@), sets@.len() as int) == Err::<
                ManifestModel,
                ManifestProblem,
            >(e@),
        },
{
    let ghost m = map@;
    let ghost all = texts(sets@);
    let mut i: usize = 0;
    while i < sets.len()
        invariant
            i <= sets@.len(),
            m == old(map)@,
            all == texts(sets@),
            after_sets(m, all, i as int) == Ok::<ManifestModel, ManifestProblem>(map@),
        decreases sets@.len() - i,
    {
        assert(all[i as int] == sets@[i as int]@);
        let ghost before = map@;
        assert(after_sets(m, all, i + 1) == set_step(before, all[i as int]));
        let kv = chars_of(sets[i].as_str());
        let (k, v) = match split_at_char(kv.as_slice(), '=') {
            Some((k, v)) => (text_of(trimmed(k)), text_of(v)),
            None => {
                proof {
                    lemma_sets_error(m, all, i + 1, all.len() as int);
                }
                return Err(ManifestError::NotAPair { got: text(sets[i].as_str()) });
            },
        };
        match set_value(k.as_str(), v.as_str()) {
            Ok(value) => map.insert(k.as_str(), value),
            Err(e) => {
                proof {
                    lemma_sets_error(m, all, i + 1, all.len() as int);
                }
                return Err(e);
            },
        }
        i = i + 1;
    }
    Ok(())
}

fn apply_unsets(map: &mut Fields, unsets: &Vec<String>) -> (r: Result<(), ManifestError>)
    ensures
        match r {
            Ok(_) => after_unsets(old(map)@, texts(unsets@), unsets@.len() as int) == Ok::<
                ManifestModel,
                ManifestProblem,
            >(final(map)@),
            Err(e) => after_unsets(old(map)@, texts(unsets@), unsets@.len() as int) == Err::<
                ManifestModel,
                ManifestProblem,
            >(e@),
        },
{
    let ghost m = map@;
    let ghost all = texts(unsets@);
    let mut i: usize = 0;
    while i < unsets.len()
        invariant
            i <= unsets@.len(),
            m == old(map)@,
            all == texts(unsets@),
            after_unsets(m, all, i as int) == Ok::<ManifestModel, ManifestProblem>(map@),
        decreases unsets@.len() - i,
    {
        assert(all[i as int] == unsets@[i as int]@);
        let k = text_of(trimmed(chars_of(unsets[i].as_str()).as_slice()));
        let key: &str = k.as_str();
        assert(after_unsets(m, all, i + 1) == (if protected(k@) {
            Err::<ManifestModel, ManifestProblem>(ManifestProblem::Protected { key: k@ })
        } else {
            Ok(map@.remove(k@))
        }));
        if same(key, "id") || same(key, "created") || same(key, "derived_from") || same(
            key,
            "derived_op",
        ) {
            proof {
                lemma_unsets_error(m, all, i + 1, all.len() as int);
            }
            return Err(ManifestError::Protected { key: k });
        }
        map.remove(key);
        i = i + 1;
    }
    Ok(())
}

/// The manifest that `set` writes: each `KEY=VALUE` declared, each key of
/// `unsets` taken out, and the whole result checked.
pub fn set_manifest(map: Fields, sets: &Vec<String>, unsets: &Vec<String>) -> (r: Result<
    Fields,
    ManifestError,
>)
    ensures
        match r {
            Ok(done) => manifest_set(map@, texts(sets@), texts(unsets@)) == Ok::<
                ManifestModel,
                ManifestProblem,
            >(done@),
            Err(e) => manifest_set(map@, texts(sets@), texts(unsets@)) == Err::<
                ManifestModel,
                ManifestProblem,
            >(e@),
        },
{
    let mut map = map;
    if sets.len() == 0 && unsets.len() == 0 {
        return Err(ManifestError::NothingToDo);
    }
    if let Err(e) = apply_sets(&mut map, sets) {
        return Err(e);
    }
    if let Err(e) = apply_unsets(&mut map, unsets) {
        return Err(e);
    }
    if map.contains_key("timestamp_regex") != map.contains_key("timestamp_format") {
        return Err(ManifestError::UnpairedTimeFormat);
    }
    if let Err(e) = retention_from_map(&map) {
        return Err(e);
    }
    Ok(map)
}

proof fn lemma_set_keeps_facts(m: ManifestModel, sets: Seq<Seq<char>>, n: int, k: Seq<char>)
    requires
        protected(k),
        0 <= n,
        after_sets(m, sets, n) is Ok,
    ensures
        after_sets(m, sets, n)->Ok_0.contains_key(k) == m.contains_key(k),
        m.contains_key(k) ==> after_sets(m, sets, n)->Ok_0[k] == m[k],
    decreases n,
{
    if n > 0 {
        lemma_set_keeps_facts(m, sets, n - 1, k);
    }
}

proof fn lemma_unset_keeps_facts(m: ManifestModel, unsets: Seq<Seq<char>>, n: int, k: Seq<char>)
    requires
        protected(k),
        0 <= n,
        after_unsets(m, unsets, n) is Ok,
    ensures
        after_unsets(m, unsets, n)->Ok_0.contains_key(k) == m.contains_key(k),
        m.contains_key(k) ==> after_unsets(m, unsets, n)->Ok_0[k] == m[k],
    decreases n,
{
    if n > 0 {
        lemma_unset_keeps_facts(m, unsets, n - 1, k);
    }
}

/// Identity and lineage are facts, not settings: whatever `set` is asked, a
/// manifest it writes says of them what it said before, and the retention it
/// declares is one that a writer can act on.
pub proof fn set_never_touches_identity(
    m: ManifestModel,
    sets: Seq<Seq<char>>,
    unsets: Seq<Seq<char>>,
    k: Seq<char>,
)
    requires
        protected(k),
        manifest_set(m, sets, unsets) is Ok,
    ensures
        manifest_set(m, sets, unsets)->Ok_0.contains_key(k) == m.contains_key(k),
        m.contains_key(k) ==> manifest_set(m, sets, unsets)->Ok_0[k] == m[k],
        retention_of(manifest_set(m, sets, unsets)->Ok_0) is Ok,
{
    lemma_set_keeps_facts(m, sets, sets.len() as int, k);
    let a = after_sets(m, sets, sets.len() as int)->Ok_0;
    lemma_unset_keeps_facts(a, unsets, unsets.len() as int, k);
}

// ------------------------------------------------------------------- create

/// What one `--set key=value` of `create` does to a declaration.
pub open spec fn create_step(m: ManifestModel, kv: Seq<char>) -> Result<
    ManifestModel,
    ManifestProblem,
> {
    match split_once(kv, '=') {
        None => Err(ManifestProblem::NotASetting { got: kv }),
        Some((left, v)) => {
            let k = trim(left);
            if k == "cursors"@ && !is_absolute(v) {
                Err(ManifestProblem::RelativeCursors)
            } else {
                match value_declared(k, v) {
                    Err(e) => Err(e),
                    Ok(value) => Ok(m.insert(k, value)),
                }
            }
        },
    }
}

/// What the first `n` settings of `create` do to a declaration.
pub open spec fn after_creates(m: ManifestModel, sets: Seq<Seq<char>>, n: int) -> Result<
    ManifestModel,
    ManifestProblem,
>
    decreases n,
{
    if n <= 0 {
        Ok(m)
    } else {
        match after_creates(m, sets, n - 1) {
            Err(e) => Err(e),
            Ok(done) => create_step(done, sets[n - 1]),
        }
    }
}

/// The flags of a declaration.
pub open spec fn flags_declared(
    index: bool,
    wal: bool,
    retain: Option<Seq<char>>,
    retain_size: Option<Seq<char>>,
    retain_unconsumed: bool,
) -> Result<ManifestModel, ManifestProblem> {
    if retain is Some && !(duration_ms(retain->Some_0) is Value) {
        Err(ManifestProblem::Duration(retain->Some_0, duration_ms(retain->Some_0)))
    } else if retain_size is Some && !(size_bytes(retain_size->Some_0) is Value) {
        Err(ManifestProblem::Size(retain_size->Some_0, size_bytes(retain_size->Some_0)))
    } else {
        let a: ManifestModel = if index {
            Map::empty().insert("index"@, JsonModel::Bool(true))
        } else {
            Map::empty()
        };
        let b = if wal {
            a.insert("wal"@, JsonModel::Bool(true))
        } else {
            a
        };
        let c = crate::bark::with_policy(b, retain, retain_size);
        Ok(
            if retain_unconsumed {
                c.insert("retain_unconsumed"@, JsonModel::Bool(true))
            } else {
                c
            },
        )
    }
}

/// The declaration that `create` was given: its flags, then its settings in
/// order, and the retention it comes to checked as a whole.
pub open spec fn declaration(
    index: bool,
    wal: bool,
    retain: Option<Seq<char>>,
    retain_size: Option<Seq<char>>,
    retain_unconsumed: bool,
    sets: Seq<Seq<char>>,
) -> Result<ManifestModel, ManifestProblem> {
    match flags_declared(index, wal, retain, retain_size, retain_unconsumed) {
        Err(e) => Err(e),
        Ok(flags) => match after_creates(flags, sets, sets.len() as int) {
            Err(e) => Err(e),
            Ok(m) => match retention_of(m) {
                Err(e) => Err(e),
                Ok(_) => Ok(m),
            },
        },
    }
}

proof fn lemma_creates_error(m: ManifestModel, sets: Seq<Seq<char>>, n: int, k: int)
    requires
        0 <= n <= k,
        after_creates(m, sets, n) is Err,
    ensures
        after_creates(m, sets, k) == after_creates(m, sets, n),
    decreases k,
{
    if n < k {
        lemma_creates_error(m, sets, n, k - 1);
    }
}

fn apply_creates(map: &mut Fields, sets: &Vec<String>) -> (r: Result<(), ManifestError>)
    ensures
        match r {
            Ok(_) => after_creates(old(map)@, texts(sets@), sets@.len() as int) == Ok::<
                ManifestModel,
                ManifestProblem,
            >(final(map)@),
            Err(e) => after_creates(old(map)@, texts(sets@), sets@.len() as int) == Err::<
                ManifestModel,
                ManifestProblem,
            >(e@),
        },
{
    let ghost m = map@;
    let ghost all = texts(sets@);
    let mut i: usize = 0;
    while i < sets.len()
        invariant
            i <= sets@.len(),
            m == old(map)@,
            all == texts(sets@),
            after_creates(m, all, i as int) == Ok::<ManifestModel, ManifestProblem>(map@),
        decreases sets@.len() - i,
    {
        assert(all[i as int] == sets@[i as int]@);
        let ghost before = map@;
        assert(after_creates(m, all, i + 1) == create_step(before, all[i as int]));
        let kv = chars_of(sets[i].as_str());
        let (k, v) = match split_at_char(kv.as_slice(), '=') {
            Some((k, v)) => (text_of(trimmed(k)), text_of(v)),
            None => {
                proof {
                    lemma_creates_error(m, all, i + 1, all.len() as int);
                }
                return Err(ManifestError::NotASetting { got: text(sets[i].as_str()) });
            },
        };
        if same(k.as_str(), "cursors") {
            if let Err(e) = validate_cursors_dir(v.as_str()) {
                proof {
                    lemma_creates_error(m, all, i + 1, all.len() as int);
                }
                return Err(e);
            }
        }
        match declared_value(k.as_str(), v.as_str()) {
            Ok(value) => map.insert(k.as_str(), value),
            Err(e) => {
                proof {
                    lemma_creates_error(m, all, i + 1, all.len() as int);
                }
                return Err(e);
            },
        }
        i = i + 1;
    }
    Ok(())
}

/// The declaration that `create` was given. Built, and thereby validated,
/// before anything is decided: a malformed flag is an error even when the
/// store is already there and nothing will be written.
pub fn create_manifest(
    index: bool,
    wal: bool,
    retain: Option<&str>,
    retain_size: Option<&str>,
    retain_unconsumed: bool,
    sets: &Vec<String>,
) -> (r: Result<Fields, ManifestError>)
    ensures
        ({
            let want = declaration(
                index,
                wal,
                opt_str(retain),
                opt_str(retain_size),
                retain_unconsumed,
                texts(sets@),
            );
            match r {
                Ok(map) => want == Ok::<ManifestModel, ManifestProblem>(map@),
                Err(e) => want == Err::<ManifestModel, ManifestProblem>(e@),
            }
        }),
{
    let mut map = Fields::new();
    if index {
        map.insert("index", Json::Bool(true));
    }
    if wal {
        map.insert("wal", Json::Bool(true));
    }
    if let Some(r) = retain {
        if let Err(e) = parse_duration_ms(r) {
            return Err(ManifestError::Duration(e));
        }
        map.insert("retain", Json::Text(text(r)));
    }
    if let Some(r) = retain_size {
        if let Err(e) = parse_size_bytes(r) {
            return Err(ManifestError::Size(e));
        }
        map.insert("retain_size", Json::Text(text(r)));
    }
    if retain_unconsumed {
        map.insert("retain_unconsumed", Json::Bool(true));
    }
    assert(flags_declared(
        index,
        wal,
        opt_str(retain),
        opt_str(retain_size),
        retain_unconsumed,
    ) == Ok::<ManifestModel, ManifestProblem>(map@));
    if let Err(e) = apply_creates(&mut map, sets) {
        return Err(e);
    }
    if let Err(e) = retention_from_map(&map) {
        return Err(e);
    }
    Ok(map)
}

/// What `create` does about a pair that is there or is not.
#[derive(Debug, Clone, Copy, PartialEq, Eq, Structural)]
pub enum CreateStep {
    /// The pair is there, and must not be.
    Refuse,
    /// The pair is there and stands as it is, but for an identity it lacks.
    Keep,
    /// Make the pair, and the manifest first where anything is declared, so
    /// that the pair carries its identity from its first byte.
    Create { manifest: bool },
}

/// What `create` does about a pair that is there or is not.
pub fn create_decision(exists: bool, if_not_exists: bool, declared: &Fields) -> (r: CreateStep)
    ensures
        r == (if exists && !if_not_exists {
            CreateStep::Refuse
        } else if exists {
            CreateStep::Keep
        } else {
            CreateStep::Create {
                manifest: declared@ != Map::<Seq<char>, JsonModel>::empty(),
            }
        }),
        r is Refuse <==> exists && !if_not_exists,
        r is Keep <==> exists && if_not_exists,
        r is Create ==> !exists && (r->manifest
            <==> declared@ != Map::<Seq<char>, JsonModel>::empty()),
{
    if exists {
        if if_not_exists {
            CreateStep::Keep
        } else {
            CreateStep::Refuse
        }
    } else {
        CreateStep::Create { manifest: !declared.is_empty() }
    }
}

// -------------------------------------------------------------------- drift

proof fn lemma_ordered_keys(m: ManifestModel, s: Seq<Seq<char>>)
    requires
        ordered(s),
        forall|k: Seq<char>| s.contains(k) <==> m.contains_key(k),
    ensures
        ordered_keys(m) == s,
{
    let t = ordered_keys(m);
    assert(ordered(t) && forall|k: Seq<char>| t.contains(k) <==> m.contains_key(k));
    lemma_order_unique(t, s);
}

/// A value as an operator reads it: a text as it is, anything else as JSON.
pub open spec fn plain_text(v: JsonModel) -> Seq<char> {
    match v {
        JsonModel::Text(s) => s,
        other => json_text(other),
    }
}

fn plain(v: &Json) -> (r: String)
    ensures
        r@ == plain_text(v@),
{
    match v {
        Json::Text(s) => text(s.as_str()),
        other => other.compact(),
    }
}

/// What a skipped declaration says of one key that stands otherwise.
pub open spec fn drift_phrase(existing: ManifestModel, k: Seq<char>, v: JsonModel) -> Seq<char> {
    if existing.contains_key(k) {
        k + " is "@ + plain_text(existing[k]) + ", not "@ + plain_text(v)
    } else {
        k + " is undeclared, not "@ + plain_text(v)
    }
}

/// What a skipped declaration says of the keys that stand otherwise, in order.
pub open spec fn drift_phrases(
    existing: ManifestModel,
    declared: ManifestModel,
    keys: Seq<Seq<char>>,
    n: int,
) -> Seq<Seq<char>>
    decreases n,
{
    if n <= 0 {
        Seq::empty()
    } else {
        let k = keys[n - 1];
        let done = drift_phrases(existing, declared, keys, n - 1);
        if existing.contains_key(k) && existing[k] == declared[k] {
            done
        } else {
            done.push(drift_phrase(existing, k, declared[k]))
        }
    }
}

/// What `create --if-not-exists` says it did not declare: each key that stands
/// otherwise, in order. It writes nothing, so silence would read as declared.
pub fn declaration_drift(existing: &Fields, declared: &Fields) -> (r: Vec<String>)
    ensures
        ({
            let keys = ordered_keys(declared@);
            texts(r@) == drift_phrases(existing@, declared@, keys, keys.len() as int)
        }),
{
    let keys = declared.keys();
    let ghost names = texts(keys@);
    proof {
        lemma_ordered_keys(declared@, names);
    }
    let mut out: Vec<String> = Vec::new();
    let mut i: usize = 0;
    assert(texts(out@) =~= Seq::empty());
    while i < keys.len()
        invariant
            i <= keys@.len(),
            names == texts(keys@),
            forall|k: Seq<char>| names.contains(k) <==> declared@.contains_key(k),
            texts(out@) == drift_phrases(existing@, declared@, names, i as int),
        decreases keys@.len() - i,
    {
        let k: &str = keys[i].as_str();
        assert(names[i as int] == k@);
        assert(names.contains(k@));
        if let Some(v) = declared.get(k) {
            match existing.get(k) {
                Some(cur) => {
                    if !cur.equals(v) {
                        let phrase = text(k).concat(" is ").concat(plain(cur).as_str()).concat(
                            ", not ",
                        ).concat(plain(v).as_str());
                        assert(texts(out@.push(phrase)) =~= texts(out@).push(phrase@));
                        out.push(phrase);
                    }
                },
                None => {
                    let phrase = text(k).concat(" is undeclared, not ").concat(plain(v).as_str());
                    assert(texts(out@.push(phrase)) =~= texts(out@).push(phrase@));
                    out.push(phrase);
                },
            }
        }
        i = i + 1;
    }
    out
}

/// The warning for a declaration that was skipped: nothing where nothing
/// differs.
pub fn drift_warning(name: &str, drift: &Vec<String>) -> (r: Option<String>)
    ensures
        r is None <==> drift@.len() == 0,
        r is Some ==> r->Some_0@ == "timberfs: warning: "@ + name@ + " already exists and "@
            + joined(texts(drift@), ", "@)
            + " — left as it is (timberfs set to change it)"@,
{
    if drift.len() == 0 {
        return None;
    }
    Some(
        text("timberfs: warning: ").concat(name).concat(" already exists and ").concat(
            join(drift, ", ").as_str(),
        ).concat(" — left as it is (timberfs set to change it)"),
    )
}

/// The note for a store that was created.
pub fn created_note(dir: &str, name: &str, index: bool, wal: bool, manifest: Option<&str>) -> (r:
    String)
    ensures
        r@ == "timberfs: created "@ + dir@ + "/"@ + name@ + (if index {
            " (indexed)"@
        } else {
            ""@
        }) + (if wal {
            " (wal)"@
        } else {
            ""@
        }) + (match manifest {
            Some(path) => " with manifest "@ + path@,
            None => ""@,
        }),
{
    let tail = match manifest {
        Some(path) => text(" with manifest ").concat(path),
        None => text(""),
    };
    text("timberfs: created ").concat(dir).concat("/").concat(name).concat(
        if index {
            " (indexed)"
        } else {
            ""
        },
    ).concat(
        if wal {
            " (wal)"
        } else {
            ""
        },
    ).concat(tail.as_str())
}

} // verus!
