//! Declaring forests: what their configuration says, which may be declared
//! beside which, and what an intake writes into.

use crate::forest::{forest_models, Forest, ForestModel};
use crate::json::{Fields, Json, JsonModel};
use crate::paths::{file_name, file_name_of, path_within, same_path, same_paths, within};
use crate::text::{
    char_texts, chars_of, debug_char, debug_text, join, joined, lines, lines_of, parts_of, quoted,
    quoted_char, same, spells, split_at_char, split_on, split_once, text, text_of, texts, trim,
    trimmed,
};
use vstd::prelude::*;
use vstd::slice::slice_subrange;
use vstd::string::{StrSliceExecFns, StringExecFns};

verus! {

// ------------------------------------------------------------ configuration

/// The directory that the first `n` lines of a forest's file declare: the last
/// one stands.
pub open spec fn dir_declared(ls: Seq<Seq<char>>, n: int) -> Option<Seq<char>>
    decreases n,
{
    if n <= 0 {
        None
    } else {
        let s = trim(ls[n - 1]);
        let rest = dir_declared(ls, n - 1);
        if s.len() == 0 || s[0] == '#' {
            rest
        } else {
            match split_once(s, '=') {
                Some((k, v)) => if trim(k) == "DIR"@ {
                    Some(trim(v))
                } else {
                    rest
                },
                None => rest,
            }
        }
    }
}

/// The directory that a forest's file names: none, where it declares none that
/// can be used, because nothing stands behind the key.
pub open spec fn forest_dir(contents: Seq<char>) -> Option<Seq<char>> {
    let ls = lines(contents);
    match dir_declared(ls, ls.len() as int) {
        Some(d) => if d.len() > 0 {
            Some(d)
        } else {
            None
        },
        None => None,
    }
}

/// Read one forest's configuration; `name` is its file's name without the
/// extension. `None` when it declares no usable `DIR`.
pub fn parse_forest_file(name: &str, contents: &str) -> (r: Option<Forest>)
    ensures
        match r {
            Some(f) => f.name@ == name@ && forest_dir(contents@) == Some(f.dir@),
            None => forest_dir(contents@) is None,
        },
{
    let cs = chars_of(contents);
    let ls = lines_of(cs.as_slice());
    let ghost all = lines(contents@);
    let mut dir: Option<&[char]> = None;
    let mut i: usize = 0;
    while i < ls.len()
        invariant
            i <= ls@.len(),
            all == char_texts(ls@),
            match dir {
                Some(d) => dir_declared(all, i as int) == Some(d@),
                None => dir_declared(all, i as int) is None,
            },
        decreases ls@.len() - i,
    {
        assert(all[i as int] == ls@[i as int]@);
        let s: &[char] = trimmed(ls[i].as_slice());
        if s.len() > 0 && s[0] != '#' {
            if let Some((k, v)) = split_at_char(s, '=') {
                if spells(trimmed(k), "DIR") {
                    dir = Some(trimmed(v));
                }
            }
        }
        i = i + 1;
    }
    match dir {
        Some(d) => if d.len() > 0 {
            Some(Forest { name: text(name), dir: text_of(d) })
        } else {
            None
        },
        None => None,
    }
}

/// The forests of the first `n` directories that the environment names: each
/// named by its own path, the empty ones left out.
pub open spec fn named_by_path(parts: Seq<Seq<char>>, n: int) -> Seq<ForestModel>
    decreases n,
{
    if n <= 0 {
        Seq::empty()
    } else if parts[n - 1].len() == 0 {
        named_by_path(parts, n - 1)
    } else {
        named_by_path(parts, n - 1).push(ForestModel { name: parts[n - 1], dir: parts[n - 1] })
    }
}

/// The forests that the environment names in place of the configuration:
/// directories with colons between them.
pub fn forests_from_env(value: &str) -> (r: Vec<Forest>)
    ensures
        ({
            let parts = split_on(value@, ':');
            forest_models(r@) == named_by_path(parts, parts.len() as int)
        }),
{
    let cs = chars_of(value);
    let parts = parts_of(cs.as_slice(), ':');
    let ghost all = split_on(value@, ':');
    let mut r: Vec<Forest> = Vec::new();
    let mut i: usize = 0;
    assert(forest_models(r@) =~= named_by_path(all, 0));
    while i < parts.len()
        invariant
            i <= parts@.len(),
            all == char_texts(parts@),
            forest_models(r@) == named_by_path(all, i as int),
        decreases parts@.len() - i,
    {
        assert(all[i as int] == parts@[i as int]@);
        if parts[i].len() > 0 {
            let f = Forest {
                name: text_of(parts[i].as_slice()),
                dir: text_of(parts[i].as_slice()),
            };
            assert(forest_models(r@.push(f)) =~= forest_models(r@).push(f@));
            r.push(f);
        }
        i = i + 1;
    }
    r
}

/// The forests for a listing: the given directories as forests of their own,
/// named by their path, when any are given, otherwise every configured one.
pub fn forests_for_list(dirs: &Vec<String>, configured: Vec<Forest>) -> (r: Vec<Forest>)
    ensures
        dirs@.len() == 0 ==> r == configured,
        dirs@.len() > 0 ==> forest_models(r@) == Seq::new(
            dirs@.len(),
            |i: int| ForestModel { name: dirs@[i]@, dir: dirs@[i]@ },
        ),
{
    if dirs.len() == 0 {
        return configured;
    }
    let mut r: Vec<Forest> = Vec::new();
    let mut i: usize = 0;
    while i < dirs.len()
        invariant
            i <= dirs@.len(),
            r@.len() == i,
            forall|j: int|
                0 <= j < i ==> (#[trigger] r@[j]).name@ == dirs@[j]@ && r@[j].dir@ == dirs@[j]@,
        decreases dirs@.len() - i,
    {
        r.push(Forest { name: text(dirs[i].as_str()), dir: text(dirs[i].as_str()) });
        i = i + 1;
    }
    assert(forest_models(r@) =~= Seq::new(
        dirs@.len(),
        |i: int| ForestModel { name: dirs@[i]@, dir: dirs@[i]@ },
    ));
    r
}

// -------------------------------------------------------------------- names

/// Whether a character can stand in a forest's name.
pub open spec fn name_char(c: char) -> bool {
    ('0' <= c && c <= '9') || ('A' <= c && c <= 'Z') || ('a' <= c && c <= 'z') || c == '_' || c
        == '.' || c == '-'
}

/// The first of a name's characters that cannot stand in it; its length where
/// all can.
pub open spec fn first_odd(name: Seq<char>) -> int
    decreases name.len(),
{
    if name.len() == 0 || !name_char(name[0]) {
        0
    } else {
        1 + first_odd(name.drop_first())
    }
}

/// Why something cannot be a name.
#[derive(Debug, Clone, PartialEq, Eq)]
pub enum NameError {
    Empty,
    TooLong(String),
    Dots(String),
    LeadingDash(String),
    BadChar(String, char),
}

/// Whether a text can be a name: not empty, at most 64 bytes, neither `.` nor
/// `..`, not starting like a flag, and of letters, digits, `_`, `.` and `-`.
pub open spec fn name_outcome(name: &str, r: Result<(), NameError>) -> bool {
    let s = name@;
    if s.len() == 0 {
        r matches Err(NameError::Empty)
    } else if vstd::utf8::encode_utf8(s).len() > 64 {
        r matches Err(NameError::TooLong(n)) && n@ == s
    } else if s == "."@ || s == ".."@ {
        r matches Err(NameError::Dots(n)) && n@ == s
    } else if s[0] == '-' {
        r matches Err(NameError::LeadingDash(n)) && n@ == s
    } else if first_odd(s) < s.len() {
        r matches Err(NameError::BadChar(n, c)) && n@ == s && c == s[first_odd(s)]
    } else {
        r is Ok
    }
}

/// Whether a text can be a name.
pub open spec fn is_name(s: Seq<char>) -> bool {
    s.len() > 0 && vstd::utf8::encode_utf8(s).len() <= 64 && s != "."@ && s != ".."@ && s[0] != '-'
        && first_odd(s) >= s.len()
}

proof fn lemma_first_odd(name: Seq<char>, k: int)
    requires
        0 <= k <= name.len(),
        forall|i: int| 0 <= i < k ==> name_char(#[trigger] name[i]),
        k < name.len() ==> !name_char(name[k]),
    ensures
        first_odd(name) == k,
    decreases k,
{
    if k > 0 {
        let t = name.drop_first();
        assert(name_char(name[0]));
        assert forall|i: int| 0 <= i < k - 1 implies name_char(#[trigger] t[i]) by {
            assert(t[i] == name[i + 1]);
        }
        lemma_first_odd(t, k - 1);
    }
}

/// Whether a text can be a name.
pub fn check_name(name: &str) -> (r: Result<(), NameError>)
    ensures
        name_outcome(name, r),
        r is Ok <==> is_name(name@),
{
    let cs = chars_of(name);
    if cs.len() == 0 {
        return Err(NameError::Empty);
    }
    if name.as_bytes().len() > 64 {
        return Err(NameError::TooLong(text(name)));
    }
    if same(name, ".") || same(name, "..") {
        return Err(NameError::Dots(text(name)));
    }
    if cs[0] == '-' {
        return Err(NameError::LeadingDash(text(name)));
    }
    let mut k: usize = 0;
    while k < cs.len() && (('0' <= cs[k] && cs[k] <= '9') || ('A' <= cs[k] && cs[k] <= 'Z') || ('a'
        <= cs[k] && cs[k] <= 'z') || cs[k] == '_' || cs[k] == '.' || cs[k] == '-')
        invariant
            k <= cs@.len(),
            forall|i: int| 0 <= i < k ==> name_char(#[trigger] cs@[i]),
        decreases cs@.len() - k,
    {
        k = k + 1;
    }
    proof {
        lemma_first_odd(cs@, k as int);
    }
    if k < cs.len() {
        return Err(NameError::BadChar(text(name), cs[k]));
    }
    Ok(())
}

/// A forest name becomes a config file name and appears in diagnostics, so it
/// is constrained the same way a follower name is.
pub fn check_forest_name(name: &str) -> (r: Result<(), NameError>)
    ensures
        name_outcome(name, r),
{
    check_name(name)
}

/// What is wrong with a forest's name.
pub open spec fn forest_name_said(e: NameError) -> Seq<char> {
    match e {
        NameError::Empty => "a forest needs a name"@,
        NameError::TooLong(n) => "forest name "@ + quoted(n@)
            + " is too long (64 characters at most)"@,
        NameError::Dots(n) => quoted(n@) + " is not a name"@,
        NameError::LeadingDash(n) => "forest name "@ + quoted(n@)
            + " may not start with `-` (it would read as a flag)"@,
        NameError::BadChar(n, c) => "forest name "@ + quoted(n@) + " contains "@ + quoted_char(c)
            + " — names are [A-Za-z0-9_.-], because the name is the config file's name and appears in every ambiguity message"@,
    }
}

/// What is wrong with a forest's name.
pub fn forest_name_message(e: &NameError) -> (r: String)
    ensures
        r@ == forest_name_said(*e),
{
    match e {
        NameError::Empty => text("a forest needs a name"),
        NameError::TooLong(n) => text("forest name ").concat(
            debug_text(n.as_str()).as_str(),
        ).concat(" is too long (64 characters at most)"),
        NameError::Dots(n) => debug_text(n.as_str()).concat(" is not a name"),
        NameError::LeadingDash(n) => text("forest name ").concat(
            debug_text(n.as_str()).as_str(),
        ).concat(" may not start with `-` (it would read as a flag)"),
        NameError::BadChar(n, c) => text("forest name ").concat(
            debug_text(n.as_str()).as_str(),
        ).concat(" contains ").concat(debug_char(*c).as_str()).concat(
            " — names are [A-Za-z0-9_.-], because the name is the config file's name and appears in every ambiguity message",
        ),
    }
}

/// The name a forest gets from its directory: the last component of its path,
/// if that names anything.
pub fn default_name(dir: &str) -> (r: Option<String>)
    ensures
        match r {
            Some(s) => file_name(dir@) == Some(s@),
            None => file_name(dir@) is None,
        },
{
    file_name_of(dir)
}

// ------------------------------------------------------------------ overlap

/// A directory as it was given, and as the file system resolves it, where it
/// can.
#[derive(Debug, Clone, PartialEq, Eq)]
pub struct Place {
    pub given: String,
    pub canonical: Option<String>,
}

/// A path without the separators at its end.
pub open spec fn trim_slashes(p: Seq<char>) -> Seq<char>
    decreases p.len(),
{
    if p.len() > 0 && p.last() == '/' {
        trim_slashes(p.drop_last())
    } else {
        p
    }
}

/// A path without the separators at its end.
pub fn normalize(p: &str) -> (r: String)
    ensures
        r@ == trim_slashes(p@),
{
    let cs = chars_of(p);
    let mut n: usize = cs.len();
    assert(cs@.take(n as int) =~= cs@);
    while n > 0 && cs[n - 1] == '/'
        invariant
            n <= cs@.len(),
            trim_slashes(cs@.take(n as int)) == trim_slashes(p@),
        decreases n,
    {
        assert(cs@.take(n as int).drop_last() =~= cs@.take(n - 1));
        n = n - 1;
    }
    let cut: &[char] = slice_subrange(cs.as_slice(), 0, n);
    assert(cut@ =~= cs@.take(n as int));
    text_of(cut)
}

/// Where a directory is: where the file system says, else by its text.
pub open spec fn located(p: Place) -> Seq<char> {
    match p.canonical {
        Some(c) => c@,
        None => trim_slashes(p.given@),
    }
}

/// Whether two directories are one: what the file system resolves both to, and
/// the text where it cannot.
pub open spec fn one_dir(a: Place, b: Place) -> bool {
    if a.canonical is Some && b.canonical is Some {
        same_path(a.canonical->Some_0@, b.canonical->Some_0@)
    } else {
        same_path(trim_slashes(a.given@), trim_slashes(b.given@))
    }
}

/// Compare two forest directories for identity. Lexical equality is not
/// enough: a trailing slash or a symlink spells one directory twice.
pub fn same_dir(a: &Place, b: &Place) -> (r: bool)
    ensures
        r == one_dir(*a, *b),
{
    match (&a.canonical, &b.canonical) {
        (Some(x), Some(y)) => same_paths(x.as_str(), y.as_str()),
        _ => same_paths(normalize(a.given.as_str()).as_str(), normalize(b.given.as_str()).as_str()),
    }
}

/// How one directory lies to another.
#[derive(Debug, Clone, Copy, PartialEq, Eq, Structural)]
pub enum Nesting {
    Inside,
    Contains,
}

impl Nesting {
    /// The relationship as a phrase.
    pub fn phrase(&self) -> (r: &'static str)
        ensures
            r@ == self.said(),
    {
        match self {
            Nesting::Inside => "is inside",
            Nesting::Contains => "contains",
        }
    }

    /// The relationship as a phrase.
    pub open spec fn said(self) -> Seq<char> {
        match self {
            Nesting::Inside => "is inside"@,
            Nesting::Contains => "contains"@,
        }
    }
}

pub open spec fn nesting(existing: Place, new: Place) -> Option<Nesting> {
    let e = located(existing);
    let n = located(new);
    if path_within(n, e) {
        Some(Nesting::Inside)
    } else if path_within(e, n) {
        Some(Nesting::Contains)
    } else {
        None
    }
}

fn location(p: &Place) -> (r: String)
    ensures
        r@ == located(*p),
{
    match &p.canonical {
        Some(c) => text(c.as_str()),
        None => normalize(p.given.as_str()),
    }
}

/// Is one of these directories inside the other? By components, not by text:
/// a shared prefix is not nesting.
pub fn nests_with(existing: &Place, new: &Place) -> (r: Option<Nesting>)
    ensures
        r == nesting(*existing, *new),
{
    let e = location(existing);
    let n = location(new);
    if within(n.as_str(), e.as_str()) {
        Some(Nesting::Inside)
    } else if within(e.as_str(), n.as_str()) {
        Some(Nesting::Contains)
    } else {
        None
    }
}

/// A forest that is declared already.
#[derive(Debug, Clone, PartialEq, Eq)]
pub struct Declared {
    pub name: String,
    pub place: Place,
}

/// What declaring a forest comes to.
#[derive(Debug, Clone, PartialEq, Eq)]
pub enum DeclareStep {
    /// The name already names this very directory: nothing to write.
    AlreadyThere,
    Declare,
}

/// Why a forest cannot be declared.
#[derive(Debug, Clone, PartialEq, Eq)]
pub enum DeclareError {
    /// The name, and the directory it already names.
    NameTaken { name: String, dir: String },
    /// The directory, and the forest it already is.
    DirTaken { dir: String, name: String },
    /// The directory, how it lies, and the forest and directory it lies so to.
    Nested { dir: String, how: Nesting, name: String, other: String },
}

impl DeclareError {
    /// What the error says.
    pub open spec fn said(self) -> Seq<char> {
        match self {
            DeclareError::NameTaken { name, dir } => "forest `"@ + name@ + "` already names "@
                + dir@
                + " — re-pointing a forest would strand every store under it, so remove it first (`timberfs forest remove "@
                + name@ + "`) if that is really what you want"@,
            DeclareError::DirTaken { dir, name } => dir@ + " is already the forest `"@ + name@
                + "` — a directory is one forest, or every store in it is found twice"@,
            DeclareError::Nested { dir, how, name, other } => dir@ + " "@ + how.said()
                + " the forest `"@ + name@ + "` ("@ + other@
                + ") — a forest is scanned one directory deep, so the stores between them would belong to both"@,
        }
    }

    /// What the error says.
    pub fn message(&self) -> (r: String)
        ensures
            r@ == self.said(),
    {
        match self {
            DeclareError::NameTaken { name, dir } => text("forest `").concat(
                name.as_str(),
            ).concat("` already names ").concat(dir.as_str()).concat(
                " — re-pointing a forest would strand every store under it, so remove it first (`timberfs forest remove ",
            ).concat(name.as_str()).concat("`) if that is really what you want"),
            DeclareError::DirTaken { dir, name } => text(dir.as_str()).concat(
                " is already the forest `",
            ).concat(name.as_str()).concat(
                "` — a directory is one forest, or every store in it is found twice",
            ),
            DeclareError::Nested { dir, how, name, other } => text(dir.as_str()).concat(
                " ",
            ).concat(how.phrase()).concat(" the forest `").concat(name.as_str()).concat(
                "` (",
            ).concat(other.as_str()).concat(
                ") — a forest is scanned one directory deep, so the stores between them would belong to both",
            ),
        }
    }
}

/// The first of the forests that has the name; how many there are where none has.
pub open spec fn first_with_name(existing: Seq<Declared>, name: Seq<char>) -> int
    decreases existing.len(),
{
    if existing.len() == 0 || existing[0].name@ == name {
        0
    } else {
        1 + first_with_name(existing.drop_first(), name)
    }
}

/// The first of the forests that is the directory.
pub open spec fn first_at(existing: Seq<Declared>, place: Place) -> int
    decreases existing.len(),
{
    if existing.len() == 0 || one_dir(existing[0].place, place) {
        0
    } else {
        1 + first_at(existing.drop_first(), place)
    }
}

/// The first of the forests that the directory nests with.
pub open spec fn first_nesting(existing: Seq<Declared>, place: Place) -> int
    decreases existing.len(),
{
    if existing.len() == 0 || nesting(existing[0].place, place) is Some {
        0
    } else {
        1 + first_nesting(existing.drop_first(), place)
    }
}

/// Whether an outcome is the one that declaring a forest comes to: a name
/// names one directory, a directory is one forest, and no forest lies inside
/// another.
pub open spec fn declare_outcome(
    name: Seq<char>,
    place: Place,
    existing: Seq<Declared>,
    r: Result<DeclareStep, DeclareError>,
) -> bool {
    let a = first_with_name(existing, name);
    let b = first_at(existing, place);
    let c = first_nesting(existing, place);
    if a < existing.len() {
        if one_dir(existing[a].place, place) {
            r == Ok::<DeclareStep, DeclareError>(DeclareStep::AlreadyThere)
        } else {
            match r {
                Err(DeclareError::NameTaken { name: n, dir }) => n@ == name && dir@
                    == existing[a].place.given@,
                _ => false,
            }
        }
    } else if b < existing.len() {
        match r {
            Err(DeclareError::DirTaken { dir, name: n }) => dir@ == place.given@ && n@
                == existing[b].name@,
            _ => false,
        }
    } else if c < existing.len() {
        match r {
            Err(DeclareError::Nested { dir, how, name: n, other }) => dir@ == place.given@
                && nesting(existing[c].place, place) == Some(how) && n@ == existing[c].name@
                && other@ == existing[c].place.given@,
            _ => false,
        }
    } else {
        r == Ok::<DeclareStep, DeclareError>(DeclareStep::Declare)
    }
}

/// What declaring a forest comes to, beside those that are declared.
pub fn declare_step(name: &str, place: &Place, existing: &Vec<Declared>) -> (r: Result<
    DeclareStep,
    DeclareError,
>)
    ensures
        declare_outcome(name@, *place, existing@, r),
{
    let mut i: usize = 0;
    assert(existing@.skip(0) =~= existing@);
    while i < existing.len()
        invariant
            i <= existing@.len(),
            first_with_name(existing@, name@) == i + first_with_name(
                existing@.skip(i as int),
                name@,
            ),
        decreases existing@.len() - i,
    {
        assert(existing@.skip(i as int).drop_first() =~= existing@.skip(i + 1));
        if same(existing[i].name.as_str(), name) {
            assert(first_with_name(existing@, name@) == i);
            if same_dir(&existing[i].place, place) {
                return Ok(DeclareStep::AlreadyThere);
            }
            return Err(
                DeclareError::NameTaken {
                    name: text(name),
                    dir: text(existing[i].place.given.as_str()),
                },
            );
        }
        i = i + 1;
    }
    assert(first_with_name(existing@, name@) == existing@.len());
    let mut i: usize = 0;
    while i < existing.len()
        invariant
            i <= existing@.len(),
            first_with_name(existing@, name@) == existing@.len(),
            first_at(existing@, *place) == i + first_at(existing@.skip(i as int), *place),
        decreases existing@.len() - i,
    {
        assert(existing@.skip(i as int).drop_first() =~= existing@.skip(i + 1));
        if same_dir(&existing[i].place, place) {
            assert(first_at(existing@, *place) == i);
            return Err(
                DeclareError::DirTaken {
                    dir: text(place.given.as_str()),
                    name: text(existing[i].name.as_str()),
                },
            );
        }
        i = i + 1;
    }
    assert(first_at(existing@, *place) == existing@.len());
    let mut i: usize = 0;
    while i < existing.len()
        invariant
            i <= existing@.len(),
            first_with_name(existing@, name@) == existing@.len(),
            first_at(existing@, *place) == existing@.len(),
            first_nesting(existing@, *place) == i + first_nesting(
                existing@.skip(i as int),
                *place,
            ),
        decreases existing@.len() - i,
    {
        assert(existing@.skip(i as int).drop_first() =~= existing@.skip(i + 1));
        if let Some(how) = nests_with(&existing[i].place, place) {
            assert(first_nesting(existing@, *place) == i);
            return Err(
                DeclareError::Nested {
                    dir: text(place.given.as_str()),
                    how,
                    name: text(existing[i].name.as_str()),
                    other: text(existing[i].place.given.as_str()),
                },
            );
        }
        i = i + 1;
    }
    Ok(DeclareStep::Declare)
}

/// The configuration that declares a forest.
pub open spec fn declaration_said(name: Seq<char>, dir: Seq<char>) -> Seq<char> {
    "# timberfs forest `"@ + name
        + "` — the directory stores under it live in.\n# Declared by `timberfs forest create`; `timberfs forest list` shows it.\nDIR="@
        + dir + "\n"@
}

/// The configuration that declares a forest.
pub fn declaration_text(name: &str, dir: &str) -> (r: String)
    ensures
        r@ == declaration_said(name@, dir@),
{
    text("# timberfs forest `").concat(name).concat(
        "` — the directory stores under it live in.\n# Declared by `timberfs forest create`; `timberfs forest list` shows it.\nDIR=",
    ).concat(dir).concat("\n")
}

// -------------------------------------------------------------- destination

/// The names of the forests that are declared, for a message.
pub open spec fn names_declared(forests: Seq<Forest>) -> Seq<char> {
    if forests.len() == 0 {
        "none declared"@
    } else {
        joined(Seq::new(forests.len(), |i: int| forests[i].name@), ", "@)
    }
}

/// The names of the forests that are declared, for a message.
pub fn declared_names(forests: &Vec<Forest>) -> (r: String)
    ensures
        r@ == names_declared(forests@),
{
    if forests.len() == 0 {
        return text("none declared");
    }
    let mut names: Vec<String> = Vec::new();
    let mut i: usize = 0;
    while i < forests.len()
        invariant
            i <= forests@.len(),
            names@.len() == i,
            forall|j: int| 0 <= j < i ==> #[trigger] names@[j]@ == forests@[j].name@,
        decreases forests@.len() - i,
    {
        names.push(text(forests[i].name.as_str()));
        i = i + 1;
    }
    assert(texts(names@) =~= Seq::new(forests@.len(), |i: int| forests@[i].name@));
    join(&names, ", ")
}

/// The first of the forests that has the name; how many there are where none
/// has.
pub open spec fn forest_named(forests: Seq<Forest>, name: Seq<char>) -> int
    decreases forests.len(),
{
    if forests.len() == 0 || forests[0].name@ == name {
        0
    } else {
        1 + forest_named(forests.drop_first(), name)
    }
}

/// What is said of a forest that is not declared: the set that is, which is
/// the answer to a typo.
pub open spec fn no_such_forest(name: Seq<char>, forests: Seq<Forest>) -> Seq<char> {
    if forests.len() == 0 {
        "no forest named `"@ + name
            + "`, and none is declared — `timberfs forest create DIR` declares one"@
    } else {
        "no forest named `"@ + name + "` — declared: "@ + names_declared(forests)
    }
}

/// The directory a declared forest names, or what to say of a name that none
/// has.
pub fn dir_of(name: &str, forests: &Vec<Forest>) -> (r: Result<String, String>)
    ensures
        ({
            let k = forest_named(forests@, name@);
            match r {
                Ok(dir) => k < forests@.len() && dir@ == forests@[k].dir@,
                Err(said) => k >= forests@.len() && said@ == no_such_forest(name@, forests@),
            }
        }),
{
    let mut i: usize = 0;
    assert(forests@.skip(0) =~= forests@);
    while i < forests.len()
        invariant
            i <= forests@.len(),
            forest_named(forests@, name@) == i + forest_named(forests@.skip(i as int), name@),
        decreases forests@.len() - i,
    {
        assert(forests@.skip(i as int).drop_first() =~= forests@.skip(i + 1));
        if same(forests[i].name.as_str(), name) {
            return Ok(text(forests[i].dir.as_str()));
        }
        i = i + 1;
    }
    if forests.len() == 0 {
        Err(
            text("no forest named `").concat(name).concat(
                "`, and none is declared — `timberfs forest create DIR` declares one",
            ),
        )
    } else {
        Err(
            text("no forest named `").concat(name).concat("` — declared: ").concat(
                declared_names(forests).as_str(),
            ),
        )
    }
}

/// Where an intake writes, and the warning that goes with it.
#[derive(Debug, Clone, PartialEq, Eq)]
pub struct Destination {
    pub dir: String,
    pub warning: Option<String>,
}

/// What is said of a destination given as a directory.
pub open spec fn dir_deprecated(dir: Seq<char>, forests: Seq<Forest>) -> Seq<char> {
    "timberfs: warning: --into-dir "@ + dir
        + " is deprecated — name a forest with `--forest NAME` instead ("@ + names_declared(
        forests,
    )
        + "). A directory that is not a forest still needs this flag; declare it with `timberfs forest create` if it should be one"@
}

/// Where an intake writes: a declared forest by name, or a raw directory. The
/// two are exclusive: picking silently is how a service ends up writing
/// somewhere nobody expects.
pub fn into_dir(forest: Option<&str>, dir: Option<&str>, forests: &Vec<Forest>) -> (r: Result<
    Destination,
    String,
>)
    ensures
        match (forest, dir) {
            (Some(name), None) => {
                let k = forest_named(forests@, name@);
                match r {
                    Ok(d) => k < forests@.len() && d.dir@ == forests@[k].dir@ && d.warning is None,
                    Err(said) => k >= forests@.len() && said@ == no_such_forest(name@, forests@),
                }
            },
            (None, Some(dir)) => match r {
                Ok(d) => d.dir@ == dir@ && d.warning is Some && d.warning->Some_0@
                    == dir_deprecated(dir@, forests@),
                Err(_) => false,
            },
            (Some(_), Some(_)) => match r {
                Ok(_) => false,
                Err(said) => said@
                    == "--forest and --into-dir both name where to write, so give one: --forest for a declared forest, --into-dir for a directory that is not one"@,
            },
            (None, None) => match r {
                Ok(_) => false,
                Err(said) => said@ == "no destination — give `--forest NAME` ("@
                    + names_declared(forests@)
                    + "), or `--into-dir DIR` for a directory that is not a forest"@,
            },
        },
{
    match (forest, dir) {
        (Some(name), None) => match dir_of(name, forests) {
            Ok(dir) => Ok(Destination { dir, warning: None }),
            Err(said) => Err(said),
        },
        (None, Some(dir)) => {
            let warning = text("timberfs: warning: --into-dir ").concat(dir).concat(
                " is deprecated — name a forest with `--forest NAME` instead (",
            ).concat(declared_names(forests).as_str()).concat(
                "). A directory that is not a forest still needs this flag; declare it with `timberfs forest create` if it should be one",
            );
            Ok(Destination { dir: text(dir), warning: Some(warning) })
        },
        (Some(_), Some(_)) => Err(
            text(
                "--forest and --into-dir both name where to write, so give one: --forest for a declared forest, --into-dir for a directory that is not one",
            ),
        ),
        (None, None) => Err(
            text("no destination — give `--forest NAME` (").concat(
                declared_names(forests).as_str(),
            ).concat("), or `--into-dir DIR` for a directory that is not a forest"),
        ),
    }
}

// ------------------------------------------------------------------ listing

/// Whether a forest's directory can be used.
#[derive(Debug, Clone, Copy, PartialEq, Eq, Structural)]
pub enum DirState {
    Missing,
    ReadOnly,
    Usable,
}

/// Whether a forest's directory can be used: a missing or read-only one is the
/// failure that otherwise shows up as a missing store somewhere far away.
pub fn dir_state(exists: bool, writable: bool) -> (r: DirState)
    ensures
        r == (if !exists {
            DirState::Missing
        } else if !writable {
            DirState::ReadOnly
        } else {
            DirState::Usable
        }),
        r is Usable <==> exists && writable,
        r is Missing <==> !exists,
{
    if !exists {
        DirState::Missing
    } else if !writable {
        DirState::ReadOnly
    } else {
        DirState::Usable
    }
}

impl DirState {
    /// The word for a state.
    pub open spec fn said(self) -> Seq<char> {
        match self {
            DirState::Missing => "MISSING"@,
            DirState::ReadOnly => "READONLY"@,
            DirState::Usable => "ok"@,
        }
    }

    /// The word for a state.
    pub fn word(&self) -> (r: &'static str)
        ensures
            r@ == self.said(),
    {
        match self {
            DirState::Missing => "MISSING",
            DirState::ReadOnly => "READONLY",
            DirState::Usable => "ok",
        }
    }
}

/// A text with spaces behind it, up to a width.
pub open spec fn padded_right(s: Seq<char>, width: nat) -> Seq<char> {
    if s.len() >= width {
        s
    } else {
        s + Seq::new((width - s.len()) as nat, |i: int| ' ')
    }
}

/// A text with spaces before it, up to a width.
pub open spec fn padded_left(s: Seq<char>, width: nat) -> Seq<char> {
    if s.len() >= width {
        s
    } else {
        Seq::new((width - s.len()) as nat, |i: int| ' ') + s
    }
}

fn spaces(n: usize) -> (r: String)
    ensures
        r@ == Seq::new(n as nat, |i: int| ' '),
{
    let mut r = String::new();
    let mut i: usize = 0;
    while i < n
        invariant
            i <= n,
            r@ == Seq::new(i as nat, |j: int| ' '),
        decreases n - i,
    {
        r.push(' ');
        i = i + 1;
        assert(r@ =~= Seq::new(i as nat, |j: int| ' '));
    }
    r
}

/// A text with spaces behind it, up to a width.
pub fn pad_right(s: &str, width: usize) -> (r: String)
    ensures
        r@ == padded_right(s@, width as nat),
{
    let n: usize = s.unicode_len();
    if n >= width {
        return text(s);
    }
    text(s).concat(spaces(width - n).as_str())
}

/// A text with spaces before it, up to a width.
pub fn pad_left(s: &str, width: usize) -> (r: String)
    ensures
        r@ == padded_left(s@, width as nat),
{
    let n: usize = s.unicode_len();
    if n >= width {
        return text(s);
    }
    spaces(width - n).concat(s)
}

/// How wide the column of names is: the longest name, in bytes, and six at
/// least.
pub open spec fn names_width(forests: Seq<Forest>, n: int) -> nat
    decreases n,
{
    if n <= 0 {
        6
    } else {
        let rest = names_width(forests, n - 1);
        let len = vstd::utf8::encode_utf8(forests[n - 1].name@).len();
        if len > rest {
            len
        } else {
            rest
        }
    }
}

/// How wide the column of names is.
pub fn list_width(forests: &Vec<Forest>) -> (w: usize)
    ensures
        w == names_width(forests@, forests@.len() as int),
{
    let mut w: usize = 6;
    let mut i: usize = 0;
    while i < forests.len()
        invariant
            i <= forests@.len(),
            w == names_width(forests@, i as int),
        decreases forests@.len() - i,
    {
        let len: usize = forests[i].name.as_str().as_bytes().len();
        if len > w {
            w = len;
        }
        i = i + 1;
    }
    w
}

/// A line of the listing.
pub open spec fn list_row(
    a: Seq<char>,
    b: Seq<char>,
    c: Seq<char>,
    d: Seq<char>,
    width: nat,
) -> Seq<char> {
    padded_right(a, width) + "  "@ + padded_left(b, 6) + "  "@ + padded_right(c, 9) + "  "@ + d
}

/// A line of the listing.
pub fn list_line(a: &str, b: &str, c: &str, d: &str, width: usize) -> (r: String)
    ensures
        r@ == list_row(a@, b@, c@, d@, width as nat),
{
    pad_right(a, width).concat("  ").concat(pad_left(b, 6).as_str()).concat("  ").concat(
        pad_right(c, 9).as_str(),
    ).concat("  ").concat(d)
}

/// A forest as an object: whether its directory is there and can be written,
/// how many stores it holds, and where it is declared.
pub fn forest_row(
    forest: &Forest,
    exists: bool,
    writable: bool,
    stores: usize,
    declared_in: &str,
) -> (r: Fields)
    ensures
        r@ == map![
            "name"@ => JsonModel::Text(forest.name@),
            "dir"@ => JsonModel::Text(forest.dir@),
            "exists"@ => JsonModel::Bool(exists),
            "writable"@ => JsonModel::Bool(writable),
            "stores"@ => JsonModel::Whole(stores as u64),
            "declared_in"@ => JsonModel::Text(declared_in@),
        ],
{
    let mut r = Fields::new();
    r.insert("name", Json::Text(text(forest.name.as_str())));
    r.insert("dir", Json::Text(text(forest.dir.as_str())));
    r.insert("exists", Json::Bool(exists));
    r.insert("writable", Json::Bool(writable));
    r.insert("stores", Json::Whole(stores as u64));
    r.insert("declared_in", Json::Text(text(declared_in)));
    r
}

} // verus!
