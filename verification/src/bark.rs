//! `.bark`: the log's manifest, declared properties and provenance as one
//! flat, optional, human-editable JSON object next to the pair:
//!
//! ```text
//! {"index": true, "host": "foo.bar.com", "path": "/var/log/app.log"}
//! ```
//!
//! Unlike the token index, which is derived and rebuildable, the manifest is
//! declared: it survives head-drops, travels on rename, and ships inside
//! bundles. Every manifest is minted with a durable identity on first write:
//! "id", the identity of the store where paths are merely its current
//! address, and "created", when the identity was established. Unknown keys
//! are preserved untouched: a manifest is a label, not a schema.

use crate::append::{
    duration_ms, parse_duration_ms, parse_size_bytes, size_bytes, MeasureError,
};
use crate::json::{
    fields_map, flag_in, json_object, json_text, text_in, Fields, Json, JsonModel,
};
use crate::measure::Amount;
use crate::paths::absolute;
use crate::text::{debug_text, decimal, number_text, quoted, same, text, texts};
use crate::uuid::{uuid_chars, uuid_spelled};
use vstd::prelude::*;
use vstd::string::StringExecFns;

verus! {

/// A manifest: keys and their values.
pub type ManifestModel = Map<Seq<char>, JsonModel>;

// ----------------------------------------------------------------- the keys

/// Keys that describe the store rather than its content: identity, lineage,
/// operational settings, content-format declarations and one hop's
/// bookkeeping. Everything else in a manifest is provenance: where the entries
/// came from and what produced them.
pub open spec fn not_provenance(k: Seq<char>) -> bool {
    k == "id"@ || k == "name"@ || k == "created"@ || k == "derived_from"@ || k == "derived_op"@ || k
        == "window_from"@ || k == "window_to"@ || k == "index"@ || k == "wal"@ || k == "retain"@
        || k == "retain_size"@ || k == "retain_unconsumed"@ || k == "cursors"@ || k
        == "timestamp_regex"@ || k == "timestamp_format"@ || k == "timestamp_utc"@ || k
        == "command"@ || k == "pattern"@ || k == "timberfs.store.id"@ || k
        == "timberfs.store.path"@ || k == "timberfs.routed_from"@
}

/// The routed value a store was opened by. Recorded because store names are
/// sanitized, so that a second value with the same name is refused rather
/// than merged.
pub const ROUTED_FROM: &'static str = "timberfs.routed_from";

/// Keys that never inherit into a derived artifact: fresh identity and lineage
/// are written instead, and settings are per-store operational choices.
/// Everything else is data provenance and inherits.
pub open spec fn non_inherited(k: Seq<char>) -> bool {
    k == "id"@ || k == "created"@ || k == "derived_from"@ || k == "derived_op"@ || k
        == "window_from"@ || k == "window_to"@ || k == "index"@ || k == "wal"@ || k == "retain"@
        || k == "retain_size"@ || k == "retain_unconsumed"@
}

/// Identity and lineage are facts, not settings: never user-settable.
pub open spec fn protected(k: Seq<char>) -> bool {
    k == "id"@ || k == "created"@ || k == "derived_from"@ || k == "derived_op"@
}

/// Keys whose value is a truth value, not a text: `"index": "true"` would be a
/// key every reader evaluates as false.
pub open spec fn boolean_key(k: Seq<char>) -> bool {
    k == "index"@ || k == "wal"@ || k == "timestamp_utc"@ || k == "retain_unconsumed"@
}

fn is_not_provenance(k: &str) -> (r: bool)
    ensures
        r == not_provenance(k@),
{
    same(k, "id") || same(k, "name") || same(k, "created") || same(k, "derived_from") || same(
        k,
        "derived_op",
    ) || same(k, "window_from") || same(k, "window_to") || same(k, "index") || same(k, "wal")
        || same(k, "retain") || same(k, "retain_size") || same(k, "retain_unconsumed") || same(
        k,
        "cursors",
    ) || same(k, "timestamp_regex") || same(k, "timestamp_format") || same(k, "timestamp_utc")
        || same(k, "command") || same(k, "pattern") || same(k, "timberfs.store.id") || same(
        k,
        "timberfs.store.path",
    ) || same(k, ROUTED_FROM)
}

fn is_non_inherited(k: &str) -> (r: bool)
    ensures
        r == non_inherited(k@),
{
    same(k, "id") || same(k, "created") || same(k, "derived_from") || same(k, "derived_op")
        || same(k, "window_from") || same(k, "window_to") || same(k, "index") || same(k, "wal")
        || same(k, "retain") || same(k, "retain_size") || same(k, "retain_unconsumed")
}

// ------------------------------------------------------------------- errors

/// Why a declaration is refused.
#[allow(inconsistent_fields)]
#[derive(Debug, Clone, PartialEq, Eq)]
pub enum ManifestError {
    /// The file is there and cannot be read; why.
    Unreadable { why: String },
    /// The file is there and spells no JSON object.
    NotAnObject { path: String },
    /// A key that must hold a text holds something else.
    NotText { key: &'static str, got: String },
    /// `retain_unconsumed` holds something other than a truth value.
    NotBool { got: String },
    Duration(MeasureError),
    Size(MeasureError),
    /// Interest without a size budget.
    NoBackstop,
    /// A declaration for `set` that is not `KEY=VALUE`.
    NotAPair { got: String },
    /// A declaration for `create --set` that is not `key=value`.
    NotASetting { got: String },
    /// A truth value that is neither `true` nor `false`.
    NotTrueOrFalse { key: String },
    RelativeCursors,
    Protected { key: String },
    BadRegex,
    NoCaptureGroup,
    BadTimeFormat,
    UnpairedTimeFormat,
    NothingToDo,
}

/// What a manifest error is.
pub enum ManifestProblem {
    Unreadable { why: Seq<char> },
    NotAnObject { path: Seq<char> },
    NotText { key: Seq<char>, got: Seq<char> },
    NotBool { got: Seq<char> },
    Duration(Seq<char>, Amount),
    Size(Seq<char>, Amount),
    NoBackstop,
    NotAPair { got: Seq<char> },
    NotASetting { got: Seq<char> },
    NotTrueOrFalse { key: Seq<char> },
    RelativeCursors,
    Protected { key: Seq<char> },
    BadRegex,
    NoCaptureGroup,
    BadTimeFormat,
    UnpairedTimeFormat,
    NothingToDo,
}

/// The text that a measure could not be read from.
pub open spec fn measure_text(e: MeasureError) -> Seq<char> {
    match e {
        MeasureError::UnrecognizedDuration(s) => s@,
        MeasureError::DurationOutOfRange(s) => s@,
        MeasureError::UnrecognizedSize(s) => s@,
        MeasureError::SizeOutOfRange(s) => s@,
    }
}

impl View for ManifestError {
    type V = ManifestProblem;

    open spec fn view(&self) -> ManifestProblem {
        match *self {
            ManifestError::Unreadable { why } => ManifestProblem::Unreadable { why: why@ },
            ManifestError::NotAnObject { path } => ManifestProblem::NotAnObject { path: path@ },
            ManifestError::NotText { key, got } => ManifestProblem::NotText {
                key: key@,
                got: got@,
            },
            ManifestError::NotBool { got } => ManifestProblem::NotBool { got: got@ },
            ManifestError::Duration(e) => ManifestProblem::Duration(
                measure_text(e),
                crate::file_intake::cause_of(e),
            ),
            ManifestError::Size(e) => ManifestProblem::Size(
                measure_text(e),
                crate::file_intake::cause_of(e),
            ),
            ManifestError::NoBackstop => ManifestProblem::NoBackstop,
            ManifestError::NotAPair { got } => ManifestProblem::NotAPair { got: got@ },
            ManifestError::NotASetting { got } => ManifestProblem::NotASetting { got: got@ },
            ManifestError::NotTrueOrFalse { key } => ManifestProblem::NotTrueOrFalse {
                key: key@,
            },
            ManifestError::RelativeCursors => ManifestProblem::RelativeCursors,
            ManifestError::Protected { key } => ManifestProblem::Protected { key: key@ },
            ManifestError::BadRegex => ManifestProblem::BadRegex,
            ManifestError::NoCaptureGroup => ManifestProblem::NoCaptureGroup,
            ManifestError::BadTimeFormat => ManifestProblem::BadTimeFormat,
            ManifestError::UnpairedTimeFormat => ManifestProblem::UnpairedTimeFormat,
            ManifestError::NothingToDo => ManifestProblem::NothingToDo,
        }
    }
}

impl ManifestError {
    /// What the error says.
    pub open spec fn said(self) -> Seq<char> {
        match self {
            ManifestError::Unreadable { why } => why@,
            ManifestError::NotAnObject { path } => path@ + " is not a JSON object"@,
            ManifestError::NotText { key, got } => "\""@ + key@ + "\" must be a string, got "@
                + got@,
            ManifestError::NotBool { got } =>
                "\"retain_unconsumed\" must be true or false, got "@ + got@,
            ManifestError::Duration(e) => e.said(),
            ManifestError::Size(e) => e.said(),
            ManifestError::NoBackstop =>
                "\"retain_unconsumed\" needs a \"retain_size\" alongside it: interest only ever holds MORE, so without a budget one stalled follower fills the disk and kills the producer"@,
            ManifestError::NotAPair { got } => "set wants KEY=VALUE, got "@ + quoted(got@),
            ManifestError::NotASetting { got } => "--set wants key=value, got "@ + quoted(got@),
            ManifestError::NotTrueOrFalse { key } => "\""@ + key@ + "\" is true or false"@,
            ManifestError::RelativeCursors =>
                "\"cursors\" must be an absolute path (it is read by daemons, from any cwd)"@,
            ManifestError::Protected { key } => "\""@ + key@
                + "\" is identity/lineage — a fact, not a setting"@,
            ManifestError::BadRegex => "\"timestamp_regex\" does not compile"@,
            ManifestError::NoCaptureGroup =>
                "\"timestamp_regex\" needs one capture group around the timestamp"@,
            ManifestError::BadTimeFormat =>
                "\"timestamp_format\" is not a valid chrono format string"@,
            ManifestError::UnpairedTimeFormat =>
                "timestamp_regex and timestamp_format go together (set both, or unset both)"@,
            ManifestError::NothingToDo =>
                "nothing to do — give KEY=VALUE to set, or --unset KEY"@,
        }
    }

    /// What the error says.
    pub fn message(&self) -> (r: String)
        ensures
            r@ == self.said(),
    {
        match self {
            ManifestError::Unreadable { why } => text(why.as_str()),
            ManifestError::NotAnObject { path } => text(path.as_str()).concat(
                " is not a JSON object",
            ),
            ManifestError::NotText { key, got } => text("\"").concat(key).concat(
                "\" must be a string, got ",
            ).concat(got.as_str()),
            ManifestError::NotBool { got } => text(
                "\"retain_unconsumed\" must be true or false, got ",
            ).concat(got.as_str()),
            ManifestError::Duration(e) => e.message(),
            ManifestError::Size(e) => e.message(),
            ManifestError::NoBackstop => text(
                "\"retain_unconsumed\" needs a \"retain_size\" alongside it: interest only ever holds MORE, so without a budget one stalled follower fills the disk and kills the producer",
            ),
            ManifestError::NotAPair { got } => text("set wants KEY=VALUE, got ").concat(
                debug_text(got.as_str()).as_str(),
            ),
            ManifestError::NotASetting { got } => text("--set wants key=value, got ").concat(
                debug_text(got.as_str()).as_str(),
            ),
            ManifestError::NotTrueOrFalse { key } => text("\"").concat(key.as_str()).concat(
                "\" is true or false",
            ),
            ManifestError::RelativeCursors => text(
                "\"cursors\" must be an absolute path (it is read by daemons, from any cwd)",
            ),
            ManifestError::Protected { key } => text("\"").concat(key.as_str()).concat(
                "\" is identity/lineage — a fact, not a setting",
            ),
            ManifestError::BadRegex => text("\"timestamp_regex\" does not compile"),
            ManifestError::NoCaptureGroup => text(
                "\"timestamp_regex\" needs one capture group around the timestamp",
            ),
            ManifestError::BadTimeFormat => text(
                "\"timestamp_format\" is not a valid chrono format string",
            ),
            ManifestError::UnpairedTimeFormat => text(
                "timestamp_regex and timestamp_format go together (set both, or unset both)",
            ),
            ManifestError::NothingToDo => text(
                "nothing to do — give KEY=VALUE to set, or --unset KEY",
            ),
        }
    }
}

// ---------------------------------------------------------------- retention

/// A declared retention policy, parsed and validated. Absent keys mean no
/// limit on that axis; an entirely absent manifest means no limits at all.
#[derive(Clone, Copy, Debug, PartialEq, Eq, Structural)]
pub struct Retention {
    pub max_age_ms: Option<u64>,
    pub max_comp_bytes: Option<u64>,
    /// `retain_unconsumed`: keep what this store's retaining followers have
    /// not read, on top of the other two axes. Never a cap: it only ever holds
    /// more than age and size would, and a size budget is required alongside.
    pub unconsumed: bool,
}

/// No limits at all.
pub open spec fn unlimited() -> Retention {
    Retention { max_age_ms: None, max_comp_bytes: None, unconsumed: false }
}

impl Default for Retention {
    fn default() -> (r: Retention)
        ensures
            r == unlimited(),
    {
        Retention { max_age_ms: None, max_comp_bytes: None, unconsumed: false }
    }
}

impl Retention {
    /// Whether anything is declared.
    pub fn is_some(&self) -> (r: bool)
        ensures
            r == (*self != unlimited()),
    {
        self.max_age_ms.is_some() || self.max_comp_bytes.is_some() || self.unconsumed
    }
}

/// The measure that a key declares: none where it is absent, and a problem
/// where it holds no text, or a text that is no measure.
pub open spec fn measure_in(m: ManifestModel, key: Seq<char>, duration: bool) -> Result<
    Option<u64>,
    ManifestProblem,
> {
    if !m.contains_key(key) {
        Ok(None)
    } else {
        match m[key] {
            JsonModel::Text(s) => if duration {
                match duration_ms(s) {
                    Amount::Value(n) => Ok(Some(n)),
                    cause => Err(ManifestProblem::Duration(s, cause)),
                }
            } else {
                match size_bytes(s) {
                    Amount::Value(n) => Ok(Some(n)),
                    cause => Err(ManifestProblem::Size(s, cause)),
                }
            },
            v => Err(ManifestProblem::NotText { key, got: json_text(v) }),
        }
    }
}

/// The retention policy that a manifest declares.
pub open spec fn retention_of(m: ManifestModel) -> Result<Retention, ManifestProblem> {
    let flag = if !m.contains_key("retain_unconsumed"@) {
        Ok(false)
    } else {
        match m["retain_unconsumed"@] {
            JsonModel::Bool(b) => Ok(b),
            v => Err(ManifestProblem::NotBool { got: json_text(v) }),
        }
    };
    match flag {
        Err(e) => Err(e),
        Ok(unconsumed) => match measure_in(m, "retain"@, true) {
            Err(e) => Err(e),
            Ok(max_age_ms) => match measure_in(m, "retain_size"@, false) {
                Err(e) => Err(e),
                Ok(max_comp_bytes) => if unconsumed && max_comp_bytes is None {
                    Err(ManifestProblem::NoBackstop)
                } else {
                    Ok(Retention { max_age_ms, max_comp_bytes, unconsumed })
                },
            },
        },
    }
}

fn declared_duration(s: &str) -> (r: Result<u64, ManifestError>)
    ensures
        match r {
            Ok(n) => duration_ms(s@) == Amount::Value(n),
            Err(e) => !(duration_ms(s@) is Value) && e@ == ManifestProblem::Duration(
                s@,
                duration_ms(s@),
            ),
        },
{
    match parse_duration_ms(s) {
        Ok(n) => Ok(n),
        Err(e) => Err(ManifestError::Duration(e)),
    }
}

fn declared_size(s: &str) -> (r: Result<u64, ManifestError>)
    ensures
        match r {
            Ok(n) => size_bytes(s@) == Amount::Value(n),
            Err(e) => !(size_bytes(s@) is Value) && e@ == ManifestProblem::Size(
                s@,
                size_bytes(s@),
            ),
        },
{
    match parse_size_bytes(s) {
        Ok(n) => Ok(n),
        Err(e) => Err(ManifestError::Size(e)),
    }
}

fn measure_at(map: &Fields, key: &'static str, duration: bool) -> (r: Result<
    Option<u64>,
    ManifestError,
>)
    ensures
        match r {
            Ok(n) => measure_in(map@, key@, duration) == Ok::<Option<u64>, ManifestProblem>(n),
            Err(e) => measure_in(map@, key@, duration) == Err::<Option<u64>, ManifestProblem>(e@),
        },
{
    match map.get(key) {
        None => Ok(None),
        Some(Json::Text(s)) => {
            let got = if duration {
                declared_duration(s.as_str())
            } else {
                declared_size(s.as_str())
            };
            match got {
                Ok(n) => Ok(Some(n)),
                Err(e) => Err(e),
            }
        },
        Some(v) => Err(ManifestError::NotText { key, got: v.compact() }),
    }
}

/// The retention policy that a manifest declares. The backstop is not
/// optional: interest is additive, so without a size budget one stalled
/// follower pins the store until the disk fills, which kills the producer.
pub fn retention_from_map(map: &Fields) -> (r: Result<Retention, ManifestError>)
    ensures
        match r {
            Ok(p) => retention_of(map@) == Ok::<Retention, ManifestProblem>(p),
            Err(e) => retention_of(map@) == Err::<Retention, ManifestProblem>(e@),
        },
{
    let unconsumed: bool = match map.get("retain_unconsumed") {
        None => false,
        Some(Json::Bool(b)) => *b,
        Some(v) => return Err(ManifestError::NotBool { got: v.compact() }),
    };
    let max_age_ms: Option<u64> = match measure_at(map, "retain", true) {
        Ok(n) => n,
        Err(e) => return Err(e),
    };
    let max_comp_bytes: Option<u64> = match measure_at(map, "retain_size", false) {
        Ok(n) => n,
        Err(e) => return Err(e),
    };
    if unconsumed && max_comp_bytes.is_none() {
        return Err(ManifestError::NoBackstop);
    }
    Ok(Retention { max_age_ms, max_comp_bytes, unconsumed })
}

/// What reading a manifest's file came to.
#[derive(Debug, Clone, PartialEq, Eq)]
pub enum ManifestFile {
    /// There is none.
    Missing,
    /// It is there, and could not be read; why.
    Unreadable(String),
    /// What it holds.
    Content(String),
}

/// The manifest that a file holds. A file that is there and holds none is an
/// error, and never no manifest.
pub open spec fn manifest_in(file: ManifestFile, path: Seq<char>) -> Result<
    Option<ManifestModel>,
    ManifestProblem,
> {
    match file {
        ManifestFile::Missing => Ok(None),
        ManifestFile::Unreadable(why) => Err(ManifestProblem::Unreadable { why: why@ }),
        ManifestFile::Content(c) => match json_object(c@) {
            Some(members) => Ok(Some(fields_map(members))),
            None => Err(ManifestProblem::NotAnObject { path }),
        },
    }
}

/// The manifest of a log, from what reading its file came to. Callers with
/// retention at stake tell "no declaration", which is no limits, from a
/// declaration that cannot be read.
pub fn try_load(file: &ManifestFile, path: &str) -> (r: Result<Option<Fields>, ManifestError>)
    ensures
        match r {
            Ok(m) => manifest_in(*file, path@) == Ok::<Option<ManifestModel>, ManifestProblem>(
                match m {
                    Some(f) => Some(f@),
                    None => None,
                },
            ),
            Err(e) => manifest_in(*file, path@) == Err::<Option<ManifestModel>, ManifestProblem>(
                e@,
            ),
        },
{
    match file {
        ManifestFile::Missing => Ok(None),
        ManifestFile::Unreadable(why) => Err(
            ManifestError::Unreadable { why: text(why.as_str()) },
        ),
        ManifestFile::Content(c) => match Fields::parse(c.as_str()) {
            Some(f) => Ok(Some(f)),
            None => Err(ManifestError::NotAnObject { path: text(path) }),
        },
    }
}

/// The manifest of a log where one that cannot be used is as good as none, and
/// what is said of one that spells no object.
pub fn load(file: &ManifestFile, path: &str) -> (r: (Option<Fields>, Option<String>))
    ensures
        match manifest_in(*file, path@) {
            Ok(Some(m)) => r.0 is Some && r.0->Some_0@ == m && r.1 is None,
            Ok(None) => r.0 is None && r.1 is None,
            Err(ManifestProblem::NotAnObject { path: p }) => r.0 is None && r.1 is Some
                && r.1->Some_0@ == "timberfs: warning: "@ + p
                + " is not a JSON object; ignoring it"@,
            Err(_) => r.0 is None && r.1 is None,
        },
{
    match try_load(file, path) {
        Ok(m) => (m, None),
        Err(ManifestError::NotAnObject { path: p }) => (
            None,
            Some(
                text("timberfs: warning: ").concat(p.as_str()).concat(
                    " is not a JSON object; ignoring it",
                ),
            ),
        ),
        Err(_) => (None, None),
    }
}

/// The retention that a manifest declares: no limits, where there is none.
pub open spec fn manifest_retention(manifest: Option<ManifestModel>) -> Result<
    Retention,
    ManifestProblem,
> {
    match manifest {
        None => Ok(unlimited()),
        Some(m) => retention_of(m),
    }
}

/// The retention that a manifest's file declares.
pub open spec fn declared_policy(file: ManifestFile, path: Seq<char>) -> Result<
    Retention,
    ManifestProblem,
> {
    match manifest_in(file, path) {
        Ok(manifest) => manifest_retention(manifest),
        Err(e) => Err(e),
    }
}

/// The retention that a manifest declares, if there is one.
pub fn retention_declared(manifest: Option<&Fields>) -> (r: Result<Retention, ManifestError>)
    ensures
        match r {
            Ok(p) => manifest_retention(manifest_view(manifest)) == Ok::<
                Retention,
                ManifestProblem,
            >(p),
            Err(e) => manifest_retention(manifest_view(manifest)) == Err::<
                Retention,
                ManifestProblem,
            >(e@),
        },
{
    match manifest {
        None => Ok(Retention::default()),
        Some(map) => retention_from_map(map),
    }
}

/// The store's declared retention, from what reading its manifest's file came
/// to. An error says that a manifest exists and cannot be used: the caller
/// keeps its last good policy, never none.
pub fn declared_retention(file: &ManifestFile, path: &str) -> (r: Result<
    Retention,
    ManifestError,
>)
    ensures
        match r {
            Ok(p) => declared_policy(*file, path@) == Ok::<Retention, ManifestProblem>(p),
            Err(e) => declared_policy(*file, path@) == Err::<Retention, ManifestProblem>(e@),
        },
{
    match try_load(file, path) {
        Ok(Some(map)) => retention_declared(Some(&map)),
        Ok(None) => retention_declared(None),
        Err(e) => Err(e),
    }
}

/// A manifest that cannot be used is never taken for one that declares nothing:
/// there are no limits only where there is no manifest, or where it is an
/// object that declares none.
pub proof fn an_unusable_manifest_is_never_no_limits(file: ManifestFile, path: Seq<char>)
    ensures
        file is Unreadable ==> declared_policy(file, path) is Err,
        (file matches ManifestFile::Content(c) && json_object(c@) is None) ==> declared_policy(
            file,
            path,
        ) is Err,
        declared_policy(file, path) == Ok::<Retention, ManifestProblem>(unlimited()) ==> {
            ||| file is Missing
            ||| (file matches ManifestFile::Content(c) && json_object(c@) is Some && {
                let m = fields_map(json_object(c@)->Some_0);
                !m.contains_key("retain"@) && !m.contains_key("retain_size"@) && !flag_in(
                    m,
                    "retain_unconsumed"@,
                )
            })
        },
{
}

/// Each axis of a policy is what its own key declares, and no other key has a
/// say in it: the age is the duration that `retain` spells, the budget the size
/// that `retain_size` spells, each there exactly where its key is, and what is
/// unread is kept exactly where `retain_unconsumed` is true.
pub proof fn each_axis_is_what_its_own_key_declares(m: ManifestModel, p: Retention)
    requires
        retention_of(m) == Ok::<Retention, ManifestProblem>(p),
    ensures
        p.max_age_ms is Some <==> m.contains_key("retain"@),
        p.max_age_ms is Some ==> m["retain"@] is Text && duration_ms(m["retain"@]->Text_0)
            == Amount::Value(p.max_age_ms->Some_0),
        p.max_comp_bytes is Some <==> m.contains_key("retain_size"@),
        p.max_comp_bytes is Some ==> m["retain_size"@] is Text && size_bytes(
            m["retain_size"@]->Text_0,
        ) == Amount::Value(p.max_comp_bytes->Some_0),
        p.unconsumed == (m.contains_key("retain_unconsumed"@) && m["retain_unconsumed"@]
            == JsonModel::Bool(true)),
{
}

/// A policy is refused only for what its three keys say: a limit that is no text
/// or spells no amount, a flag that is no truth value, or interest without a
/// budget.
pub proof fn a_policy_is_refused_only_for_its_own_keys(m: ManifestModel)
    requires
        retention_of(m) is Err,
    ensures
        ({
            ||| m.contains_key("retain"@) && !(m["retain"@] is Text && duration_ms(
                m["retain"@]->Text_0,
            ) is Value)
            ||| m.contains_key("retain_size"@) && !(m["retain_size"@] is Text && size_bytes(
                m["retain_size"@]->Text_0,
            ) is Value)
            ||| m.contains_key("retain_unconsumed"@) && !(m["retain_unconsumed"@] is Bool)
            ||| m.contains_key("retain_unconsumed"@) && m["retain_unconsumed"@] == JsonModel::Bool(
                true,
            ) && !m.contains_key("retain_size"@)
        }),
{
}

/// Interest never holds without a budget: no policy that a manifest declares
/// keeps what is unread and has no size limit.
pub proof fn the_backstop_is_not_optional(m: ManifestModel)
    requires
        retention_of(m) is Ok,
    ensures
        retention_of(m)->Ok_0.unconsumed ==> retention_of(m)->Ok_0.max_comp_bytes is Some,
{
}

/// Whether a manifest declares a flag.
pub open spec fn declares(manifest: Option<ManifestModel>, key: Seq<char>) -> bool {
    manifest is Some && flag_in(manifest->Some_0, key)
}

pub open spec fn manifest_view(manifest: Option<&Fields>) -> Option<ManifestModel> {
    match manifest {
        Some(map) => Some(map@),
        None => None,
    }
}

/// Is the index declared for this log?
pub fn index_declared(manifest: Option<&Fields>) -> (r: bool)
    ensures
        r == declares(manifest_view(manifest), "index"@),
{
    match manifest {
        Some(map) => map.flag_at("index"),
        None => false,
    }
}

/// Is the write-ahead sidecar declared for this log? A property of the store,
/// not of whoever happens to be writing it right now.
pub fn wal_declared(manifest: Option<&Fields>) -> (r: bool)
    ensures
        r == declares(manifest_view(manifest), "wal"@),
{
    match manifest {
        Some(map) => map.flag_at("wal"),
        None => false,
    }
}

fn or_empty(manifest: Option<&Fields>) -> (r: Fields)
    ensures
        r@ == (match manifest {
            Some(map) => map@,
            None => Map::<Seq<char>, JsonModel>::empty(),
        }),
{
    match manifest {
        Some(map) => map.copy(),
        None => Fields::new(),
    }
}

/// What a manifest is once it declares a flag.
pub open spec fn with_flag(manifest: Option<ManifestModel>, key: Seq<char>) -> ManifestModel {
    (match manifest {
        Some(m) => m,
        None => Map::empty(),
    }).insert(key, JsonModel::Bool(true))
}

/// The manifest to write so that the index is declared: nothing to write where
/// it is already.
pub fn declare_index(manifest: Option<&Fields>) -> (r: Option<Fields>)
    ensures
        r is None <==> declares(manifest_view(manifest), "index"@),
        r is Some ==> r->Some_0@ == with_flag(manifest_view(manifest), "index"@),
{
    if index_declared(manifest) {
        return None;
    }
    let mut map = or_empty(manifest);
    map.insert("index", Json::Bool(true));
    Some(map)
}

/// The manifest to write so that the write-ahead sidecar is declared: nothing
/// to write where it is already.
pub fn declare_wal(manifest: Option<&Fields>) -> (r: Option<Fields>)
    ensures
        r is None <==> declares(manifest_view(manifest), "wal"@),
        r is Some ==> r->Some_0@ == with_flag(manifest_view(manifest), "wal"@),
{
    if wal_declared(manifest) {
        return None;
    }
    let mut map = or_empty(manifest);
    map.insert("wal", Json::Bool(true));
    Some(map)
}

/// What a manifest is once a policy given by flag is declared in it.
pub open spec fn with_policy(
    m: ManifestModel,
    retain: Option<Seq<char>>,
    retain_size: Option<Seq<char>>,
) -> ManifestModel {
    let a = match retain {
        Some(r) => m.insert("retain"@, JsonModel::Text(r)),
        None => m,
    };
    match retain_size {
        Some(r) => a.insert("retain_size"@, JsonModel::Text(r)),
        None => a,
    }
}

pub open spec fn opt_str(o: Option<&str>) -> Option<Seq<char>> {
    match o {
        Some(s) => Some(s@),
        None => None,
    }
}

/// The manifest to write so that a retention policy given by flag is declared:
/// nothing to write where no flag was given. The policy is a property of the
/// log, and every writer reads it from there.
pub fn declare_policy(
    manifest: Option<&Fields>,
    retain: Option<&str>,
    retain_size: Option<&str>,
) -> (r: Option<Fields>)
    ensures
        r is None <==> retain is None && retain_size is None,
        r is Some ==> r->Some_0@ == with_policy(
            match manifest {
                Some(map) => map@,
                None => Map::empty(),
            },
            opt_str(retain),
            opt_str(retain_size),
        ),
{
    if retain.is_none() && retain_size.is_none() {
        return None;
    }
    let mut map = or_empty(manifest);
    if let Some(r) = retain {
        map.insert("retain", Json::Text(text(r)));
    }
    if let Some(r) = retain_size {
        map.insert("retain_size", Json::Text(text(r)));
    }
    Some(map)
}

// --------------------------------------------------------------- provenance

/// The fields of a manifest whose keys are not among the ones set aside.
pub open spec fn provenance_of(m: ManifestModel) -> ManifestModel {
    Map::new(|k: Seq<char>| m.contains_key(k) && !not_provenance(k), |k: Seq<char>| m[k])
}

/// The fields of a manifest that a derived artifact inherits.
pub open spec fn inherited_of(m: ManifestModel) -> ManifestModel {
    Map::new(|k: Seq<char>| m.contains_key(k) && !non_inherited(k), |k: Seq<char>| m[k])
}

/// The fields of a manifest, without those that say what the store is
/// (`labels`), or without those that never inherit.
fn kept_fields(map: &Fields, labels: bool) -> (r: Fields)
    ensures
        r@ == (if labels {
            provenance_of(map@)
        } else {
            inherited_of(map@)
        }),
{
    let keys = map.keys();
    let ghost names = texts(keys@);
    let mut r = Fields::new();
    let mut i: usize = 0;
    while i < keys.len()
        invariant
            i <= keys@.len(),
            names == texts(keys@),
            forall|k: Seq<char>| names.contains(k) <==> map@.contains_key(k),
            forall|k: Seq<char>| #[trigger]
                r@.contains_key(k) <==> names.take(i as int).contains(k) && !(if labels {
                    not_provenance(k)
                } else {
                    non_inherited(k)
                }),
            forall|k: Seq<char>| #[trigger] r@.contains_key(k) ==> r@[k] == map@[k],
        decreases keys@.len() - i,
    {
        let key: &str = keys[i].as_str();
        let ghost was = r@;
        proof {
            assert(names[i as int] == key@);
            assert(names.contains(key@));
            let next = names.take(i + 1);
            assert(next =~= names.take(i as int).push(key@));
            assert forall|k: Seq<char>| next.contains(k) <==> names.take(i as int).contains(k) || k
                == key@ by {
                if next.contains(k) {
                    let j = choose|j: int| 0 <= j < next.len() && next[j] == k;
                    if j < i {
                        assert(names.take(i as int)[j] == k);
                    }
                }
                if names.take(i as int).contains(k) {
                    let j = choose|j: int| 0 <= j < i && names.take(i as int)[j] == k;
                    assert(next[j] == k);
                }
                assert(next[i as int] == key@);
            }
        }
        let set_aside: bool = if labels {
            is_not_provenance(key)
        } else {
            is_non_inherited(key)
        };
        if !set_aside {
            if let Some(v) = map.get(key) {
                r.insert(key, v.copy());
            }
        }
        i = i + 1;
    }
    proof {
        assert(names.take(i as int) =~= names);
        if labels {
            assert(r@ =~= provenance_of(map@));
        } else {
            assert(r@ =~= inherited_of(map@));
        }
    }
    r
}

/// A manifest's provenance keys. The values are left exactly as declared:
/// flattening a dotted key is a consumer's concern, and doing it here would
/// lose the key the operator actually wrote.
pub fn provenance(map: &Fields) -> (r: Fields)
    ensures
        r@ == provenance_of(map@),
{
    kept_fields(map, true)
}

/// The identity of the store that the entries came from over the wire.
pub open spec fn origin_of(m: ManifestModel) -> Option<Seq<char>> {
    match text_in(m, "timberfs.store.id"@) {
        Some(s) => if s.len() > 0 {
            Some(s)
        } else {
            None
        },
        None => None,
    }
}

/// The origin store's identity, when the entries arrived from another store
/// over the wire. Trustworthy only where routing gives one store per origin.
pub fn origin_id(map: &Fields) -> (r: Option<String>)
    ensures
        match r {
            Some(s) => origin_of(map@) == Some(s@),
            None => origin_of(map@) is None,
        },
{
    match map.text_at("timberfs.store.id") {
        Some(s) => if s.as_str().is_empty() {
            None
        } else {
            Some(s)
        },
        None => None,
    }
}

/// The manifest of an artifact derived from a source by an operation:
/// inherited provenance, lineage when the source is identified, and the
/// operation. Never the source's identity.
pub open spec fn derived_of(source: Option<ManifestModel>, op: Seq<char>) -> ManifestModel {
    let base = match source {
        Some(src) => match text_in(src, "id"@) {
            Some(id) => inherited_of(src).insert("derived_from"@, JsonModel::Text(id)),
            None => inherited_of(src),
        },
        None => Map::empty(),
    };
    base.insert("derived_op"@, JsonModel::Text(op))
}

/// The manifest for an artifact derived from `source_bark` by `op`: new
/// identity (minted when it is written), a lineage pointer when the source is
/// identified, inherited provenance.
pub fn derived_map(source_bark: Option<&Fields>, op: &str) -> (r: Fields)
    ensures
        r@ == derived_of(manifest_view(source_bark), op@),
{
    let mut map = match source_bark {
        Some(src) => {
            let mut map = kept_fields(src, false);
            if let Some(id) = src.text_at("id") {
                map.insert("derived_from", Json::Text(id));
            }
            map
        },
        None => Fields::new(),
    };
    map.insert("derived_op", Json::Text(text(op)));
    map
}

/// A derived artifact is a store of its own: it carries neither the source's
/// identity nor its settings, and it keeps every field of provenance.
pub proof fn settings_do_not_inherit_and_provenance_does(src: ManifestModel, op: Seq<char>, k: Seq<
    char,
>)
    ensures
        non_inherited(k) && k != "derived_from"@ && k != "derived_op"@ ==> !derived_of(
            Some(src),
            op,
        ).contains_key(k),
        !non_inherited(k) && src.contains_key(k) ==> derived_of(Some(src), op).contains_key(k)
            && derived_of(Some(src), op)[k] == src[k],
        text_in(src, "id"@) is Some ==> derived_of(Some(src), op)["derived_from"@]
            == JsonModel::Text(text_in(src, "id"@)->Some_0),
{
    reveal_strlit("derived_from");
    reveal_strlit("derived_op");
    assert("derived_from"@.len() != "derived_op"@.len());
}

// ----------------------------------------------------------------- identity

/// The bytes of a random identity, from sixteen random bytes: version 4, and
/// the variant that goes with it.
pub open spec fn minted(b: Seq<u8>) -> Seq<u8> {
    b.update(6, ((b[6] & 0x0f) | 0x40) as u8).update(8, ((b[8] & 0x3f) | 0x80) as u8)
}

/// A random identity as text, from sixteen random bytes.
pub fn new_uuid(random: [u8; 16]) -> (r: String)
    ensures
        r@ == uuid_chars(minted(random@)),
{
    let mut b: [u8; 16] = random;
    b[6] = (b[6] & 0x0f) | 0x40;
    b[8] = (b[8] & 0x3f) | 0x80;
    assert(b@ =~= minted(random@));
    uuid_spelled(&b)
}

/// A manifest with an identity: the one it has, or the fresh one, and when it
/// was established.
pub open spec fn identified(m: ManifestModel, id: Seq<char>, created: Seq<char>) -> ManifestModel {
    let a = if m.contains_key("id"@) {
        m
    } else {
        m.insert("id"@, JsonModel::Text(id))
    };
    if a.contains_key("created"@) {
        a
    } else {
        a.insert("created"@, JsonModel::Text(created))
    }
}

/// Every store gets a durable identity the first time a manifest is written,
/// whichever path writes it: `fresh` is the identity and `now` the time to
/// record where the manifest holds none. Once present, neither is ever
/// touched.
pub fn with_identity(map: Fields, fresh: &str, now: &str) -> (r: Fields)
    ensures
        r@ == identified(map@, fresh@, now@),
{
    let mut map = map;
    if !map.contains_key("id") {
        map.insert("id", Json::Text(text(fresh)));
    }
    if !map.contains_key("created") {
        map.insert("created", Json::Text(text(now)));
    }
    map
}

/// An identity, once there, is never touched: writing a manifest again, with
/// whatever fresh identity and time, changes neither it nor anything else.
pub proof fn an_identity_stands(m: ManifestModel, a: Seq<char>, t: Seq<char>, b: Seq<char>, u: Seq<
    char,
>)
    ensures
        identified(identified(m, a, t), b, u) == identified(m, a, t),
        m.contains_key("id"@) ==> identified(m, a, t)["id"@] == m["id"@],
        forall|k: Seq<char>|
            k != "id"@ && k != "created"@ && m.contains_key(k) ==> identified(
                m,
                a,
                t,
            ).contains_key(k) && #[trigger] identified(m, a, t)[k] == m[k],
{
    reveal_strlit("id");
    reveal_strlit("created");
    assert("id"@.len() != "created"@.len());
}

/// The time that `ms` milliseconds after the epoch is, as RFC 3339 in UTC
/// with milliseconds: nothing where no such time can be named.
pub uninterp spec fn rfc3339_millis(ms: int) -> Option<Seq<char>>;

/// `chrono::DateTime::from_timestamp_millis`, written with
/// `to_rfc3339_opts(SecondsFormat::Millis, true)`: the time in UTC, and
/// nothing for a time out of its range.
#[verifier::external_body]
fn time_text(ms: i64) -> (r: Option<String>)
    ensures
        match r {
            Some(s) => rfc3339_millis(ms as int) == Some(s@),
            None => rfc3339_millis(ms as int) is None,
        },
{
    chrono::DateTime::from_timestamp_millis(ms)
        .map(|t| t.to_rfc3339_opts(chrono::SecondsFormat::Millis, true))
}

/// Sixty-four bits read as a signed number.
pub open spec fn signed(n: u64) -> int {
    if n <= i64::MAX {
        n as int
    } else {
        n - 0x1_0000_0000_0000_0000
    }
}

/// A time as text, or its number where no time can be named.
pub open spec fn time_or_number(ms: u64) -> Seq<char> {
    match rfc3339_millis(signed(ms)) {
        Some(s) => s,
        None => decimal(ms as nat),
    }
}

/// The text for a time, given what naming it came to.
pub fn time_or(ms: u64, named: Option<String>) -> (r: String)
    ensures
        r@ == (match named {
            Some(s) => s@,
            None => decimal(ms as nat),
        }),
{
    match named {
        Some(s) => s,
        None => number_text(ms),
    }
}

/// Window bounds are operation facts, recorded as RFC 3339 UTC.
pub fn ms_rfc3339(ms: u64) -> (r: String)
    ensures
        r@ == time_or_number(ms),
{
    let n: i64 = if ms <= i64::MAX as u64 {
        ms as i64
    } else {
        -((u64::MAX - ms) as i64) - 1
    };
    time_or(ms, time_text(n))
}

/// Which side of a disagreement to keep.
#[derive(Clone, Copy, PartialEq, Eq, Debug, Structural)]
pub enum IdentitySide {
    /// The index header: the backing pair, which is the store.
    Index,
    /// The manifest.
    Manifest,
}

/// What the two sides of a store say of its identity, taken together.
#[derive(Clone, Copy, PartialEq, Eq, Debug, Structural)]
pub enum Verdict {
    Consistent,
    Disagree,
    ManifestOnly,
    IndexOnly,
    Neither,
}

pub open spec fn verdict_of(manifest: Option<Seq<char>>, index: Option<Seq<char>>) -> Verdict {
    match (manifest, index) {
        (Some(a), Some(b)) => if a == b {
            Verdict::Consistent
        } else {
            Verdict::Disagree
        },
        (Some(_), None) => Verdict::ManifestOnly,
        (None, Some(_)) => Verdict::IndexOnly,
        (None, None) => Verdict::Neither,
    }
}

impl Verdict {
    /// Whether the store is in one consistent state.
    pub fn ok(&self) -> (r: bool)
        ensures
            r == (*self != Verdict::Disagree && *self != Verdict::Neither),
    {
        match self {
            Verdict::Disagree | Verdict::Neither => false,
            _ => true,
        }
    }

    /// What a verdict says.
    pub open spec fn said(self) -> Seq<char> {
        match self {
            Verdict::Consistent => "consistent"@,
            Verdict::Disagree =>
                "DISAGREE — two identities for one store; pick one with --keep index or --keep manifest"@,
            Verdict::ManifestOnly => "manifest only — the index is stamped on the next write"@,
            Verdict::IndexOnly =>
                "index only — `create --if-not-exists` recovers it into the manifest"@,
            Verdict::Neither =>
                "NONE — this pair is not a store; make it one with --mint (or `create --if-not-exists`)"@,
        }
    }

    /// What a verdict says.
    pub fn message(&self) -> (r: String)
        ensures
            r@ == self.said(),
    {
        match self {
            Verdict::Consistent => text("consistent"),
            Verdict::Disagree => text(
                "DISAGREE — two identities for one store; pick one with --keep index or --keep manifest",
            ),
            Verdict::ManifestOnly => text("manifest only — the index is stamped on the next write"),
            Verdict::IndexOnly => text(
                "index only — `create --if-not-exists` recovers it into the manifest",
            ),
            Verdict::Neither => text(
                "NONE — this pair is not a store; make it one with --mint (or `create --if-not-exists`)",
            ),
        }
    }
}

/// What to do about a store's identity.
#[derive(Clone, PartialEq, Eq, Debug)]
pub enum IdentityStep {
    /// Only say what the two sides hold.
    Report(Verdict),
    /// Make one where there is none.
    Mint,
    /// Make both sides say this one.
    Settle(String),
}

/// Why nothing is done about a store's identity.
#[derive(Clone, PartialEq, Eq, Debug)]
pub enum IdentityError {
    MintAndKeep,
    AlreadyIdentified(String),
    IndexHasNone,
    ManifestHasNone,
    /// Settling ran and the manifest still holds none.
    NotTaken,
    NotAUuid(String),
}

impl IdentityError {
    /// What the error says.
    pub open spec fn said(self) -> Seq<char> {
        match self {
            IdentityError::MintAndKeep =>
                "--mint makes an identity where there is none; --keep chooses between two. Not both"@,
            IdentityError::AlreadyIdentified(id) =>
                "--mint is for a store with no identity at all; this one already has "@ + id@,
            IdentityError::IndexHasNone => "--keep index: the index carries no identity"@,
            IdentityError::ManifestHasNone => "--keep manifest: the manifest carries no identity"@,
            IdentityError::NotTaken => "the manifest did not take an identity"@,
            IdentityError::NotAUuid(id) => quoted(id@) + " is not a uuid"@,
        }
    }

    /// What the error says.
    pub fn message(&self) -> (r: String)
        ensures
            r@ == self.said(),
    {
        match self {
            IdentityError::MintAndKeep => text(
                "--mint makes an identity where there is none; --keep chooses between two. Not both",
            ),
            IdentityError::AlreadyIdentified(id) => text(
                "--mint is for a store with no identity at all; this one already has ",
            ).concat(id.as_str()),
            IdentityError::IndexHasNone => text("--keep index: the index carries no identity"),
            IdentityError::ManifestHasNone => text(
                "--keep manifest: the manifest carries no identity",
            ),
            IdentityError::NotTaken => text("the manifest did not take an identity"),
            IdentityError::NotAUuid(id) => debug_text(id.as_str()).concat(" is not a uuid"),
        }
    }
}

/// Whether a step is the one that the two sides and the flags call for.
pub open spec fn identity_decided(
    mint: bool,
    keep: Option<IdentitySide>,
    manifest: Option<Seq<char>>,
    index: Option<Seq<char>>,
    r: Result<IdentityStep, IdentityError>,
) -> bool {
    if mint && keep is Some {
        r matches Err(IdentityError::MintAndKeep)
    } else if mint {
        match (manifest, index) {
            (None, None) => r matches Ok(IdentityStep::Mint),
            (Some(id), _) => r matches Err(IdentityError::AlreadyIdentified(said)) && said@ == id,
            (None, Some(id)) => r matches Err(IdentityError::AlreadyIdentified(said)) && said@
                == id,
        }
    } else {
        match keep {
            Some(IdentitySide::Index) => match index {
                Some(id) => r matches Ok(IdentityStep::Settle(got)) && got@ == id,
                None => r matches Err(IdentityError::IndexHasNone),
            },
            Some(IdentitySide::Manifest) => match manifest {
                Some(id) => r matches Ok(IdentityStep::Settle(got)) && got@ == id,
                None => r matches Err(IdentityError::ManifestHasNone),
            },
            None => r matches Ok(IdentityStep::Report(v)) && v == verdict_of(manifest, index),
        }
    }
}

/// What to do about a store's identity. A store's id is not a setting; but the
/// three ways it can be broken each have an obvious intended fix, and an
/// operator who knows which one applies needs a way to say so. Without a flag
/// this only reports.
pub fn identity_step(
    mint: bool,
    keep: Option<IdentitySide>,
    manifest: Option<&str>,
    index: Option<&str>,
) -> (r: Result<IdentityStep, IdentityError>)
    ensures
        identity_decided(mint, keep, opt_str(manifest), opt_str(index), r),
{
    if mint && keep.is_some() {
        return Err(IdentityError::MintAndKeep);
    }
    if mint {
        return match (manifest, index) {
            (None, None) => Ok(IdentityStep::Mint),
            (Some(id), _) => Err(IdentityError::AlreadyIdentified(text(id))),
            (None, Some(id)) => Err(IdentityError::AlreadyIdentified(text(id))),
        };
    }
    match keep {
        Some(IdentitySide::Index) => match index {
            Some(id) => Ok(IdentityStep::Settle(text(id))),
            None => Err(IdentityError::IndexHasNone),
        },
        Some(IdentitySide::Manifest) => match manifest {
            Some(id) => Ok(IdentityStep::Settle(text(id))),
            None => Err(IdentityError::ManifestHasNone),
        },
        None => {
            let verdict = match (manifest, index) {
                (Some(a), Some(b)) => if same(a, b) {
                    Verdict::Consistent
                } else {
                    Verdict::Disagree
                },
                (Some(_), None) => Verdict::ManifestOnly,
                (None, Some(_)) => Verdict::IndexOnly,
                (None, None) => Verdict::Neither,
            };
            Ok(IdentityStep::Report(verdict))
        },
    }
}

/// The manifest to write to settle an identity: with the one chosen, or with
/// none, so that writing it mints one.
pub fn settle_identity(manifest: Option<&Fields>, chosen: Option<&str>) -> (r: Fields)
    ensures
        ({
            let m = match manifest {
                Some(map) => map@,
                None => Map::empty(),
            };
            r@ == (match chosen {
                Some(id) => m.insert("id"@, JsonModel::Text(id@)),
                None => m.remove("id"@),
            })
        }),
{
    let mut map = or_empty(manifest);
    match chosen {
        None => map.remove("id"),
        Some(id) => map.insert("id", Json::Text(text(id))),
    }
    map
}

/// The identity that a manifest settled on, as the index header holds it.
pub fn settled_identity(manifest: Option<&Fields>) -> (r: Result<[u8; 16], IdentityError>)
    ensures
        match r {
            Ok(b) => manifest is Some && text_in(manifest->Some_0@, "id"@) is Some
                && crate::uuid::uuid_of(text_in(manifest->Some_0@, "id"@)->Some_0) == Some(b@),
            Err(IdentityError::NotTaken) => manifest is None || text_in(
                manifest->Some_0@,
                "id"@,
            ) is None,
            Err(IdentityError::NotAUuid(id)) => manifest is Some && text_in(
                manifest->Some_0@,
                "id"@,
            ) == Some(id@) && crate::uuid::uuid_of(id@) is None,
            Err(_) => false,
        },
{
    let id = match manifest {
        Some(map) => map.text_at("id"),
        None => None,
    };
    match id {
        None => Err(IdentityError::NotTaken),
        Some(id) => match crate::format::uuid_bytes(id.as_str()) {
            Some(b) => Ok(b),
            None => Err(IdentityError::NotAUuid(id)),
        },
    }
}

/// What an existing pair without an identity gets: the manifest to write, and
/// whether the identity was recovered from the index.
pub struct MissingIdentity {
    pub manifest: Fields,
    pub recovered: bool,
}

impl MissingIdentity {
    /// What was done about the missing identity.
    pub fn what(&self) -> (r: &'static str)
        ensures
            r@ == (if self.recovered {
                "recovered its identity from the index"@
            } else {
                "had no identity; minted one"@
            }),
    {
        if self.recovered {
            "recovered its identity from the index"
        } else {
            "had no identity; minted one"
        }
    }
}

/// Give an existing pair the identity it lacks: nothing to do where it has
/// one. The pair may already carry one where the manifest was lost, and the
/// pair is the store, so that is the identity, not a fresh mint.
pub fn mint_missing_identity(manifest: Option<&Fields>, carried: Option<&str>) -> (r: Option<
    MissingIdentity,
>)
    ensures
        ({
            let m = match manifest {
                Some(map) => map@,
                None => Map::empty(),
            };
            match r {
                None => text_in(m, "id"@) is Some,
                Some(got) => {
                    &&& text_in(m, "id"@) is None
                    &&& got.recovered == (carried is Some)
                    &&& got.manifest@ == (match carried {
                        Some(id) => m.insert("id"@, JsonModel::Text(id@)),
                        None => m,
                    })
                },
            }
        }),
{
    let mut map = or_empty(manifest);
    if map.text_at("id").is_some() {
        return None;
    }
    match carried {
        Some(id) => {
            map.insert("id", Json::Text(text(id)));
            Some(MissingIdentity { manifest: map, recovered: true })
        },
        None => Some(MissingIdentity { manifest: map, recovered: false }),
    }
}

/// The manifest to write so that a store is identified: nothing to write where
/// it is already. Writing mints the rest.
pub fn ensure_identified(manifest: Option<&Fields>) -> (r: Option<Fields>)
    ensures
        ({
            let m = match manifest {
                Some(map) => map@,
                None => Map::empty(),
            };
            match r {
                None => text_in(m, "id"@) is Some,
                Some(got) => text_in(m, "id"@) is None && got@ == m,
            }
        }),
{
    let map = or_empty(manifest);
    if map.text_at("id").is_some() {
        None
    } else {
        Some(map)
    }
}

// -------------------------------------------------------------- time format

/// Declared line-timestamp format: a content description, which unlike
/// settings inherits through derivation.
#[derive(Clone, Debug, PartialEq, Eq)]
pub struct TimeFormat {
    pub regex: Option<String>,
    pub format: Option<String>,
    pub utc: bool,
}

pub open spec fn opt_string(o: Option<String>) -> Option<Seq<char>> {
    match o {
        Some(s) => Some(s@),
        None => None,
    }
}

impl Default for TimeFormat {
    fn default() -> (r: TimeFormat)
        ensures
            r.regex is None,
            r.format is None,
            !r.utc,
    {
        TimeFormat { regex: None, format: None, utc: false }
    }
}

/// The line-timestamp format that a manifest declares.
pub fn time_format(map: Option<&Fields>) -> (r: TimeFormat)
    ensures
        match map {
            None => r.regex is None && r.format is None && !r.utc,
            Some(m) => opt_string(r.regex) == text_in(m@, "timestamp_regex"@) && opt_string(
                r.format,
            ) == text_in(m@, "timestamp_format"@) && r.utc == flag_in(m@, "timestamp_utc"@),
        },
{
    match map {
        None => TimeFormat::default(),
        Some(m) => TimeFormat {
            regex: m.text_at("timestamp_regex"),
            format: m.text_at("timestamp_format"),
            utc: m.flag_at("timestamp_utc"),
        },
    }
}

/// The format in force: what a run was given, else what the store declares.
pub fn merged_format(given: &TimeFormat, declared: &TimeFormat) -> (r: TimeFormat)
    ensures
        opt_string(r.regex) == (if given.regex is Some {
            opt_string(given.regex)
        } else {
            opt_string(declared.regex)
        }),
        opt_string(r.format) == (if given.format is Some {
            opt_string(given.format)
        } else {
            opt_string(declared.format)
        }),
        r.utc == (given.utc || declared.utc),
        given.regex is None && declared.regex is None <==> r.regex is None,
        given.format is None && declared.format is None <==> r.format is None,
        given.regex is Some ==> r.regex is Some && r.regex->Some_0@ == given.regex->Some_0@,
        given.format is Some ==> r.format is Some && r.format->Some_0@ == given.format->Some_0@,
{
    let regex = match &given.regex {
        Some(s) => Some(text(s.as_str())),
        None => match &declared.regex {
            Some(s) => Some(text(s.as_str())),
            None => None,
        },
    };
    let format = match &given.format {
        Some(s) => Some(text(s.as_str())),
        None => match &declared.format {
            Some(s) => Some(text(s.as_str())),
            None => None,
        },
    };
    TimeFormat { regex, format, utc: given.utc || declared.utc }
}

} // verus!
