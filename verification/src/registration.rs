//! Registering, changing and retiring followers: what is refused, what is
//! declared, and what is said of it.

use crate::bark::{opt_str, opt_string};
use crate::declaration::{one_store, Declaration, DeclarationModel};
use crate::follower::{
    count_unread, covered_index, handle_at, lock_path, total_behind,
    unit_name, unit_of, unread_among, validate_name, Covered, Liveness, Matched, Places, Registered,
};
use crate::forests::{is_name, name_outcome, NameError};
use crate::json::Fields;
use crate::paths::join as join_path;
use crate::text::{
    chars_of, copy_texts, debug_text, decimal, join, joined, number_text, quoted, same, split_at_char,
    split_once, spells, starts_with, text, text_of, texts, trim, trimmed, without_prefix,
};
use vstd::prelude::*;
use vstd::string::StringExecFns;

verus! {

/// One more line at the end.
pub fn say(lines: &mut Vec<String>, line: String)
    ensures
        texts(final(lines)@) == texts(old(lines)@).push(line@),
{
    let ghost was = lines@;
    lines.push(line);
    proof {
        assert(texts(lines@) =~= texts(was).push(line@));
    }
}

/// No lines.
pub fn nothing_said() -> (r: Vec<String>)
    ensures
        texts(r@) == Seq::<Seq<char>>::empty(),
{
    let r: Vec<String> = Vec::new();
    proof {
        assert(texts(r@) =~= Seq::<Seq<char>>::empty());
    }
    r
}

// ------------------------------------------------------------------- create

/// What a registration asks for.
#[derive(Clone, Debug, PartialEq, Eq)]
pub struct CreateOpts {
    /// Which stores, as a predicate.
    pub select: Option<String>,
    /// The one store to follow: a path, or a forest handle.
    pub store: Option<String>,
    pub retaining: bool,
    pub follow_from: Option<String>,
    pub enable: bool,
    pub start: bool,
    pub dry_run: bool,
    /// The consumer and its arguments, verbatim.
    pub command: Vec<String>,
}

/// Why a follower is not registered.
#[derive(Clone, Debug, PartialEq, Eq)]
pub enum CreateError {
    Name(NameError),
    NoConsumer,
    Exists { name: String, dir: String },
    TwoSelections,
    NoSelection,
    NoStore { store: String, dir: String },
    NoIdentity { store: String },
}

impl CreateError {
    /// What the error says.
    pub open spec fn said(self) -> Seq<char> {
        match self {
            CreateError::Name(e) => crate::follower::follower_name_said(e),
            CreateError::NoConsumer => "no consumer to feed: give the program and its arguments after `--`, e.g. `-- timber-otlp --endpoint http://collector:4318`"@,
            CreateError::Exists { name, dir } => "follower "@ + name@ + " already exists ("@ + dir@
                + ") — names are host-unique, and two followers sharing one position would let each advance past data the other never sent. `timberfs follower status "@
                + name@ + "` to see whose it is"@,
            CreateError::TwoSelections => "--select names a SET and --store names one store, which is the one-term case of it: give one of them"@,
            CreateError::NoSelection => "no selection: --select '[k=v]' for the stores a predicate matches, `[]` for every one, or --store <store> for exactly one"@,
            CreateError::NoStore { store, dir } => "no timberfs store "@ + store@ + " in "@ + dir@
                + " — a follower follows stores that exist"@,
            CreateError::NoIdentity { store } => store@
                + " has no declared identity and one could not be minted — a follower cannot be anchored to a path, a store being movable"@,
        }
    }

    /// What the error says.
    pub fn message(&self) -> (r: String)
        ensures
            r@ == self.said(),
    {
        match self {
            CreateError::Name(e) => crate::follower::follower_name_message(e),
            CreateError::NoConsumer => text(
                "no consumer to feed: give the program and its arguments after `--`, e.g. `-- timber-otlp --endpoint http://collector:4318`",
            ),
            CreateError::Exists { name, dir } => text("follower ").concat(name.as_str()).concat(
                " already exists (",
            ).concat(dir.as_str()).concat(
                ") — names are host-unique, and two followers sharing one position would let each advance past data the other never sent. `timberfs follower status ",
            ).concat(name.as_str()).concat("` to see whose it is"),
            CreateError::TwoSelections => text(
                "--select names a SET and --store names one store, which is the one-term case of it: give one of them",
            ),
            CreateError::NoSelection => text(
                "no selection: --select '[k=v]' for the stores a predicate matches, `[]` for every one, or --store <store> for exactly one",
            ),
            CreateError::NoStore { store, dir } => text("no timberfs store ").concat(
                store.as_str(),
            ).concat(" in ").concat(dir.as_str()).concat(
                " — a follower follows stores that exist",
            ),
            CreateError::NoIdentity { store } => text(store.as_str()).concat(
                " has no declared identity and one could not be minted — a follower cannot be anchored to a path, a store being movable",
            ),
        }
    }
}

/// What a registration selects by.
#[derive(Clone, Debug, PartialEq, Eq)]
pub enum Selecting {
    Predicate(String),
    Store(String),
}

/// What a registration comes to, before any store is looked at.
pub open spec fn create_outcome(
    name: &str,
    opts: CreateOpts,
    dir: &str,
    taken: bool,
    r: Result<Selecting, CreateError>,
) -> bool {
    if !is_name(name@) {
        r matches Err(CreateError::Name(e)) && name_outcome(name, Err(e))
    } else if opts.command@.len() == 0 {
        r matches Err(CreateError::NoConsumer)
    } else if taken {
        r matches Err(CreateError::Exists { name: n, dir: d }) && n@ == name@ && d@ == dir@
    } else {
        match (opts.select, opts.store) {
            (Some(_), Some(_)) => r matches Err(CreateError::TwoSelections),
            (None, None) => r matches Err(CreateError::NoSelection),
            (Some(s), None) => r matches Ok(Selecting::Predicate(t)) && t@ == s@,
            (None, Some(s)) => r matches Ok(Selecting::Store(t)) && t@ == s@,
        }
    }
}

/// Whether a follower can be registered: a taken name is refused, so that a
/// collision is an error here rather than two processes overwriting one
/// position.
pub fn create_step(name: &str, opts: &CreateOpts, dir: &str, taken: bool) -> (r: Result<
    Selecting,
    CreateError,
>)
    ensures
        create_outcome(name, *opts, dir, taken, r),
{
    if let Err(e) = validate_name(name) {
        return Err(CreateError::Name(e));
    }
    if opts.command.len() == 0 {
        return Err(CreateError::NoConsumer);
    }
    if taken {
        return Err(CreateError::Exists { name: text(name), dir: text(dir) });
    }
    match (&opts.select, &opts.store) {
        (Some(_), Some(_)) => Err(CreateError::TwoSelections),
        (None, None) => Err(CreateError::NoSelection),
        (Some(s), None) => Ok(Selecting::Predicate(text(s.as_str()))),
        (None, Some(s)) => Ok(Selecting::Store(text(s.as_str()))),
    }
}

/// Whether a store that is named is there: asked before an identity is minted
/// for it, since minting writes.
pub fn named_store(name: &str, dir: &str, there: bool) -> (r: Result<(), CreateError>)
    ensures
        match r {
            Ok(()) => there,
            Err(CreateError::NoStore { store, dir: d }) => !there && store@ == name@ && d@ == dir@,
            Err(_) => false,
        },
{
    if there {
        Ok(())
    } else {
        Err(CreateError::NoStore { store: text(name), dir: text(dir) })
    }
}

/// The one-term selection for what an anchor identifies.
pub fn one_store_select(anchor: &str) -> (r: String)
    ensures
        r@ == one_store(anchor@),
{
    text("[id=").concat(anchor).concat("]")
}

/// The one-term selection for a store, by what identifies it. A path does not:
/// a store can move.
pub fn anchored_selection(anchor: &str, store: &str) -> (r: Result<String, CreateError>)
    ensures
        match r {
            Ok(s) => !starts_with(anchor@, "path:"@) && s@ == one_store(anchor@),
            Err(CreateError::NoIdentity { store: s }) => starts_with(anchor@, "path:"@) && s@
                == store@,
            Err(_) => false,
        },
{
    let cs = chars_of(anchor);
    if without_prefix(cs.as_slice(), "path:").is_some() {
        Err(CreateError::NoIdentity { store: text(store) })
    } else {
        Ok(one_store_select(anchor))
    }
}

/// The extra directory that a named store needs swept, if any: none where the
/// selection reaches it already.
pub fn place_to_look(dir: &str, reached: bool) -> (r: Vec<String>)
    ensures
        texts(r@) == (if reached {
            Seq::<Seq<char>>::empty()
        } else {
            seq![dir@]
        }),
        reached <==> r@.len() == 0,
        !reached ==> r@.len() == 1 && r@[0]@ == dir@,
{
    let mut v = nothing_said();
    if !reached {
        say(&mut v, text(dir));
        proof {
            assert(texts(v@) =~= seq![dir@]);
        }
    }
    proof {
        assert(texts(v@).len() == v@.len());
        assert(!reached ==> texts(v@)[0] == v@[0]@);
    }
    v
}

/// The declaration that a registration writes.
pub fn new_declaration(
    name: &str,
    opts: &CreateOpts,
    select: &str,
    look_in: &Vec<String>,
    created: &str,
) -> (d: Declaration)
    ensures
        d@ == (DeclarationModel {
            name: name@,
            select: select@,
            retaining: opts.retaining,
            command: texts(opts.command@),
            follow_from: opt_string(opts.follow_from),
            look_in: texts(look_in@),
            created: created@,
            extra: Map::empty(),
        }),
{
    Declaration {
        name: text(name),
        select: text(select),
        retaining: opts.retaining,
        command: copy_texts(&opts.command),
        follow_from: match &opts.follow_from {
            Some(s) => Some(text(s.as_str())),
            None => None,
        },
        look_in: copy_texts(look_in),
        created: text(created),
        extra: Fields::new(),
    }
}

/// The first six of a list of names.
pub open spec fn first_names(names: Seq<Seq<char>>) -> Seq<char> {
    joined(
        names.take(
            if names.len() < 6 {
                names.len() as int
            } else {
                6
            },
        ),
        ", "@,
    )
}

fn first_six(names: &Vec<String>) -> (r: String)
    ensures
        r@ == first_names(texts(names@)),
{
    let mut head = nothing_said();
    let mut i: usize = 0;
    let ghost all = texts(names@);
    while i < names.len() && i < 6
        invariant
            i <= names@.len(),
            i <= 6,
            all == texts(names@),
            texts(head@) == all.take(i as int),
        decreases 6 - i,
    {
        say(&mut head, text(names[i].as_str()));
        i = i + 1;
        proof {
            assert(texts(head@) =~= all.take(i as int));
        }
    }
    join(&head, ", ")
}

/// What a selection covers today, and what it cannot follow. One that matches
/// nothing is not refused: a follower is routinely declared before its stores
/// exist.
pub open spec fn coverage_said(
    d: DeclarationModel,
    identified: Seq<Seq<char>>,
    idless: Seq<Seq<char>>,
) -> Seq<Seq<char>> {
    let first = if identified.len() == 0 {
        seq![
            "timberfs: "@ + d.select
                + " matches no store with an identity yet — nothing is followed until one appears, which is a legitimate order to do this in"@,
        ]
    } else if d.retaining {
        seq![
            "timberfs: retaining "@ + decimal(identified.len()) + " store(s): "@ + first_names(
                identified,
            ) + (if identified.len() > 6 {
                ", …"@
            } else {
                ""@
            }),
        ]
    } else {
        Seq::empty()
    };
    if idless.len() == 0 {
        first
    } else {
        first.push(
            "timberfs: "@ + decimal(idless.len())
                + " matched store(s) carry no identity, so they are NOT followed: "@ + first_names(
                idless,
            ) + " (`timberfs identity <store> --mint` gives one)"@,
        )
    }
}

/// What a selection covers today, and what it cannot follow, by handle.
pub fn report_coverage(
    decl: &Declaration,
    identified: &Vec<String>,
    idless: &Vec<String>,
) -> (r: Vec<String>)
    ensures
        texts(r@) == coverage_said(decl@, texts(identified@), texts(idless@)),
{
    let mut out = nothing_said();
    let n: usize = identified.len();
    let m: usize = idless.len();
    if n == 0 {
        say(
            &mut out,
            text("timberfs: ").concat(decl.select.as_str()).concat(
                " matches no store with an identity yet — nothing is followed until one appears, which is a legitimate order to do this in",
            ),
        );
    } else if decl.retaining {
        let more = if n > 6 {
            ", …"
        } else {
            ""
        };
        say(
            &mut out,
            text("timberfs: retaining ").concat(number_text(n as u64).as_str()).concat(
                " store(s): ",
            ).concat(first_six(identified).as_str()).concat(more),
        );
    }
    if m > 0 {
        say(
            &mut out,
            text("timberfs: ").concat(number_text(m as u64).as_str()).concat(
                " matched store(s) carry no identity, so they are NOT followed: ",
            ).concat(first_six(idless).as_str()).concat(
                " (`timberfs identity <store> --mint` gives one)",
            ),
        );
    }
    proof {
        assert(texts(out@) =~= coverage_said(decl@, texts(identified@), texts(idless@)));
    }
    out
}

/// What is said of a follower once it is registered.
pub open spec fn registered_said(
    d: DeclarationModel,
    identified: Seq<Seq<char>>,
    idless: Seq<Seq<char>>,
) -> Seq<Seq<char>> {
    let all = seq![
        "timberfs: registered follower "@ + d.name + " on "@ + d.select + " ("@ + decimal(
            identified.len(),
        ) + " store(s) now)"@,
    ] + coverage_said(d, identified, idless);
    if d.retaining {
        all.push(
            "timberfs: "@ + d.name
                + " is retaining: once a writer honours it, it holds each covered store whole until it first reads it. `--start` (or `systemctl start "@
                + unit_of(d.name) + "`) makes the safe path the easy one"@,
        )
    } else {
        all
    }
}

/// What is said of a follower once it is registered. A retaining one holds
/// everything of a store that it has not read, and this is where that is said.
pub fn registered_notes(
    decl: &Declaration,
    identified: &Vec<String>,
    idless: &Vec<String>,
) -> (r: Vec<String>)
    ensures
        texts(r@) == registered_said(decl@, texts(identified@), texts(idless@)),
{
    let mut out = nothing_said();
    let n: usize = identified.len();
    say(
        &mut out,
        text("timberfs: registered follower ").concat(decl.name.as_str()).concat(" on ").concat(
            decl.select.as_str(),
        ).concat(" (").concat(number_text(n as u64).as_str()).concat(" store(s) now)"),
    );
    let coverage = report_coverage(decl, identified, idless);
    let ghost head = texts(out@);
    let ghost tail = texts(coverage@);
    let mut i: usize = 0;
    while i < coverage.len()
        invariant
            i <= coverage@.len(),
            tail == texts(coverage@),
            texts(out@) == head + tail.take(i as int),
        decreases coverage@.len() - i,
    {
        say(&mut out, text(coverage[i].as_str()));
        i = i + 1;
        proof {
            assert(texts(out@) =~= head + tail.take(i as int));
        }
    }
    proof {
        assert(tail.take(i as int) =~= tail);
    }
    if decl.retaining {
        say(
            &mut out,
            text("timberfs: ").concat(decl.name.as_str()).concat(
                " is retaining: once a writer honours it, it holds each covered store whole until it first reads it. `--start` (or `systemctl start ",
            ).concat(unit_name(decl.name.as_str()).as_str()).concat(
                "`) makes the safe path the easy one",
            ),
        );
    }
    proof {
        assert(texts(out@) =~= registered_said(decl@, texts(identified@), texts(idless@)));
    }
    out
}

/// What is said where a registration neither enables nor starts anything.
pub fn nothing_runs_it(name: &str) -> (r: String)
    ensures
        r@ == "timberfs: nothing runs it yet — `systemctl enable --now "@ + unit_of(name@) + "`"@,
{
    text("timberfs: nothing runs it yet — `systemctl enable --now ").concat(
        unit_name(name).as_str(),
    ).concat("`")
}

// ------------------------------------------------------------------- update

/// Why a declaration is not changed.
#[derive(Clone, Debug, PartialEq, Eq)]
pub enum UpdateError {
    NothingToDo,
    NotAPair(String),
    NotABool,
    /// A key that is identity rather than configuration.
    Identity(String),
    UnknownKey(String),
    CannotUnset(String),
    NoConsumer,
    /// A store that is named and not there.
    NoStore { store: String, dir: String },
}

impl UpdateError {
    /// What the error says.
    pub open spec fn said(self) -> Seq<char> {
        match self {
            UpdateError::NothingToDo => "nothing to do — give KEY=VALUE to set (retaining/select/store/follow_from), --unset KEY, or `-- ARGS...` to replace the shipper's arguments"@,
            UpdateError::NotAPair(s) => "update wants KEY=VALUE, got "@ + quoted(s@),
            UpdateError::NotABool => "\"retaining\" is true or false"@,
            UpdateError::Identity(k) => "\""@ + k@
                + "\" is identity, not configuration — it is not settable"@,
            UpdateError::UnknownKey(k) => "unknown key "@ + quoted(k@)
                + " (settable: retaining, select, store, follow_from); a shipper flag goes after `--`"@,
            UpdateError::CannotUnset(k) => quoted(k@) + " cannot be unset"@,
            UpdateError::NoConsumer => "`--` with nothing after it would leave no consumer to feed"@,
            UpdateError::NoStore { store, dir } => "no timberfs store "@ + store@ + " in "@ + dir@
                + " — a follower is a position in a store that exists"@,
        }
    }

    /// What the error says.
    pub fn message(&self) -> (r: String)
        ensures
            r@ == self.said(),
    {
        match self {
            UpdateError::NothingToDo => text(
                "nothing to do — give KEY=VALUE to set (retaining/select/store/follow_from), --unset KEY, or `-- ARGS...` to replace the shipper's arguments",
            ),
            UpdateError::NotAPair(s) => text("update wants KEY=VALUE, got ").concat(
                debug_text(s.as_str()).as_str(),
            ),
            UpdateError::NotABool => text("\"retaining\" is true or false"),
            UpdateError::Identity(k) => text("\"").concat(k.as_str()).concat(
                "\" is identity, not configuration — it is not settable",
            ),
            UpdateError::UnknownKey(k) => text("unknown key ").concat(
                debug_text(k.as_str()).as_str(),
            ).concat(
                " (settable: retaining, select, store, follow_from); a shipper flag goes after `--`",
            ),
            UpdateError::CannotUnset(k) => debug_text(k.as_str()).concat(" cannot be unset"),
            UpdateError::NoConsumer => text(
                "`--` with nothing after it would leave no consumer to feed",
            ),
            UpdateError::NoStore { store, dir } => text("no timberfs store ").concat(
                store.as_str(),
            ).concat(" in ").concat(dir.as_str()).concat(
                " — a follower is a position in a store that exists",
            ),
        }
    }
}

/// Whether an update is asked for at all.
pub fn check_update(sets: usize, unsets: usize, command: bool) -> (r: Result<(), UpdateError>)
    ensures
        match r {
            Ok(()) => sets > 0 || unsets > 0 || command,
            Err(e) => e is NothingToDo && sets == 0 && unsets == 0 && !command,
        },
{
    if sets == 0 && unsets == 0 && !command {
        Err(UpdateError::NothingToDo)
    } else {
        Ok(())
    }
}

/// What a `KEY=VALUE` asks for.
#[derive(Clone, Debug, PartialEq, Eq)]
pub enum Setting {
    Retaining(bool),
    /// A predicate, as it was typed.
    Select(String),
    FollowFrom(String),
    /// A path or a handle.
    Store(String),
}

/// What a `KEY=VALUE` comes to.
pub open spec fn setting_outcome(kv: Seq<char>, r: Result<Setting, UpdateError>) -> bool {
    match split_once(kv, '=') {
        None => r matches Err(UpdateError::NotAPair(s)) && s@ == kv,
        Some((k, v)) => {
            let key = trim(k);
            let value = trim(v);
            if key == "retaining"@ {
                if value == "true"@ {
                    r matches Ok(Setting::Retaining(true))
                } else if value == "false"@ {
                    r matches Ok(Setting::Retaining(false))
                } else {
                    r matches Err(UpdateError::NotABool)
                }
            } else if key == "select"@ {
                r matches Ok(Setting::Select(s)) && s@ == value
            } else if key == "follow_from"@ {
                r matches Ok(Setting::FollowFrom(s)) && s@ == value
            } else if key == "store"@ {
                r matches Ok(Setting::Store(s)) && s@ == value
            } else if key == "name"@ || key == "created"@ {
                r matches Err(UpdateError::Identity(s)) && s@ == key
            } else {
                r matches Err(UpdateError::UnknownKey(s)) && s@ == key
            }
        },
    }
}

/// What a `KEY=VALUE` asks for.
pub fn parse_setting(kv: &str) -> (r: Result<Setting, UpdateError>)
    ensures
        setting_outcome(kv@, r),
{
    let cs = chars_of(kv);
    let (k, v) = match split_at_char(cs.as_slice(), '=') {
        Some(p) => p,
        None => {
            return Err(UpdateError::NotAPair(text(kv)));
        },
    };
    let key = trimmed(k);
    let value = trimmed(v);
    if spells(key, "retaining") {
        if spells(value, "true") {
            Ok(Setting::Retaining(true))
        } else if spells(value, "false") {
            Ok(Setting::Retaining(false))
        } else {
            Err(UpdateError::NotABool)
        }
    } else if spells(key, "select") {
        Ok(Setting::Select(text_of(value)))
    } else if spells(key, "follow_from") {
        Ok(Setting::FollowFrom(text_of(value)))
    } else if spells(key, "store") {
        Ok(Setting::Store(text_of(value)))
    } else if spells(key, "name") || spells(key, "created") {
        Err(UpdateError::Identity(text_of(key)))
    } else {
        Err(UpdateError::UnknownKey(text_of(key)))
    }
}

/// A change to a declaration, with what had to be looked up.
#[derive(Clone, Debug, PartialEq, Eq)]
pub enum Change {
    Retaining(bool),
    /// A predicate, in the form in which it is recorded.
    Select(String),
    FollowFrom(String),
    /// One store, by what identifies it, and where to look for it.
    Store { anchor: String, look_in: Vec<String> },
}

/// A declaration with a change. A place to look belongs to the store that it
/// was recorded for: a predicate is about forests, and another store may be
/// anywhere else.
pub open spec fn changed(d: DeclarationModel, c: Change) -> DeclarationModel {
    match c {
        Change::Retaining(b) => DeclarationModel { retaining: b, ..d },
        Change::Select(s) => DeclarationModel { select: s@, look_in: Seq::empty(), ..d },
        Change::FollowFrom(s) => DeclarationModel { follow_from: Some(s@), ..d },
        Change::Store { anchor, look_in } => DeclarationModel {
            select: one_store(anchor@),
            look_in: texts(look_in@),
            ..d
        },
    }
}

/// Changes a declaration.
fn apply_change(decl: &mut Declaration, change: Change)
    ensures
        final(decl)@ == changed(old(decl)@, change),
{
    match change {
        Change::Retaining(b) => {
            decl.retaining = b;
        },
        Change::Select(s) => {
            decl.select = s;
            decl.look_in = nothing_said();
        },
        Change::FollowFrom(s) => {
            decl.follow_from = Some(s);
        },
        Change::Store { anchor, look_in } => {
            decl.select = one_store_select(anchor.as_str());
            decl.look_in = look_in;
        },
    }
}

/// Takes a key of a declaration back to what it is without being stated.
pub fn unset(decl: &mut Declaration, key: &str) -> (r: Result<(), UpdateError>)
    ensures
        ({
            let k = trim(key@);
            if k == "retaining"@ {
                r is Ok && final(decl)@ == (DeclarationModel { retaining: false, ..old(decl)@ })
            } else if k == "follow_from"@ {
                r is Ok && final(decl)@ == (DeclarationModel { follow_from: None, ..old(decl)@ })
            } else {
                (r matches Err(UpdateError::CannotUnset(s)) && s@ == k) && final(decl)@
                    == old(decl)@
            }
        }),
{
    let cs = chars_of(key);
    let k = trimmed(cs.as_slice());
    if spells(k, "retaining") {
        decl.retaining = false;
        Ok(())
    } else if spells(k, "follow_from") {
        decl.follow_from = None;
        Ok(())
    } else {
        Err(UpdateError::CannotUnset(text_of(k)))
    }
}

/// Replaces the consumer, wholesale.
pub fn replace_command(decl: &mut Declaration, command: Vec<String>) -> (r: Result<
    (),
    UpdateError,
>)
    ensures
        command@.len() > 0 ==> r is Ok && final(decl)@ == (DeclarationModel {
            command: texts(command@),
            ..old(decl)@
        }),
        command@.len() == 0 ==> r == Err::<(), UpdateError>(UpdateError::NoConsumer) && final(decl)@
            == old(decl)@,
{
    if command.len() == 0 {
        return Err(UpdateError::NoConsumer);
    }
    decl.command = command;
    Ok(())
}

/// A declaration with one change after another.
pub open spec fn all_changed(d: DeclarationModel, changes: Seq<Change>) -> DeclarationModel
    decreases changes.len(),
{
    if changes.len() == 0 {
        d
    } else {
        changed(all_changed(d, changes.drop_last()), changes.last())
    }
}

/// A declaration with a key taken back: nothing where it cannot be.
pub open spec fn unset_key(d: DeclarationModel, key: Seq<char>) -> Option<DeclarationModel> {
    if trim(key) == "retaining"@ {
        Some(DeclarationModel { retaining: false, ..d })
    } else if trim(key) == "follow_from"@ {
        Some(DeclarationModel { follow_from: None, ..d })
    } else {
        None
    }
}

/// A declaration with one key after another taken back; or the first that
/// cannot be.
pub open spec fn all_unset(d: DeclarationModel, keys: Seq<Seq<char>>) -> Result<
    DeclarationModel,
    Seq<char>,
>
    decreases keys.len(),
{
    if keys.len() == 0 {
        Ok(d)
    } else {
        match all_unset(d, keys.drop_last()) {
            Err(k) => Err(k),
            Ok(e) => match unset_key(e, keys.last()) {
                Some(f) => Ok(f),
                None => Err(trim(keys.last())),
            },
        }
    }
}

proof fn lemma_all_unset_stops(d: DeclarationModel, keys: Seq<Seq<char>>, n: int)
    requires
        0 <= n <= keys.len(),
        all_unset(d, keys.take(n)) is Err,
    ensures
        all_unset(d, keys) == all_unset(d, keys.take(n)),
    decreases keys.len(),
{
    if n == keys.len() {
        assert(keys.take(n) =~= keys);
    } else {
        assert(keys.drop_last().take(n) =~= keys.take(n));
        lemma_all_unset_stops(d, keys.drop_last(), n);
    }
}

/// What an update comes to, once its changes are made: the keys that are taken
/// back, then the consumer.
pub open spec fn update_outcome(
    d: DeclarationModel,
    unsets: Seq<Seq<char>>,
    command: Option<Vec<String>>,
    r: Result<Declaration, UpdateError>,
) -> bool {
    match all_unset(d, unsets) {
        Err(k) => r matches Err(UpdateError::CannotUnset(s)) && s@ == k,
        Ok(e) => match command {
            None => r matches Ok(u) && u@ == e,
            Some(c) => if c@.len() == 0 {
                r matches Err(UpdateError::NoConsumer)
            } else {
                r matches Ok(u) && u@ == (DeclarationModel { command: texts(c@), ..e })
            },
        },
    }
}

/// The declaration that an update leaves, from the one with its changes.
pub fn updated(
    decl: &Declaration,
    unsets: &Vec<String>,
    command: Option<Vec<String>>,
) -> (r: Result<Declaration, UpdateError>)
    ensures
        update_outcome(decl@, texts(unsets@), command, r),
{
    let mut now = decl.copy();
    let ghost e = now@;
    let ghost keys = texts(unsets@);
    let mut i: usize = 0;
    proof {
        assert(keys.take(0) =~= Seq::empty());
    }
    while i < unsets.len()
        invariant
            i <= unsets@.len(),
            keys == texts(unsets@),
            e == decl@,
            all_unset(e, keys.take(i as int)) == Ok::<DeclarationModel, Seq<char>>(now@),
        decreases unsets@.len() - i,
    {
        proof {
            assert(keys.take(i + 1).drop_last() =~= keys.take(i as int));
            assert(keys.take(i + 1).last() == unsets@[i as int]@);
            if all_unset(e, keys.take(i + 1)) is Err {
                lemma_all_unset_stops(e, keys, i + 1);
            }
        }
        if let Err(err) = unset(&mut now, unsets[i].as_str()) {
            return Err(err);
        }
        i = i + 1;
    }
    proof {
        assert(keys.take(i as int) =~= keys);
    }
    if let Some(c) = command {
        if let Err(err) = replace_command(&mut now, c) {
            return Err(err);
        }
    }
    Ok(now)
}

/// Whether a store that an update names is there: asked before an identity is
/// minted for it, since minting writes.
pub fn followed_store(name: &str, dir: &str, there: bool) -> (r: Result<(), UpdateError>)
    ensures
        match r {
            Ok(()) => there,
            Err(UpdateError::NoStore { store, dir: d }) => !there && store@ == name@ && d@ == dir@,
            Err(_) => false,
        },
{
    if there {
        Ok(())
    } else {
        Err(UpdateError::NoStore { store: text(name), dir: text(dir) })
    }
}

/// Whether a change points a follower at another store than the one that it
/// follows by then, while it has places in those that it followed.
pub open spec fn repoints(change: Change, followed: Option<Seq<char>>, places: Places) -> bool {
    match change {
        Change::Store { anchor, .. } => followed != Some(anchor@) && (places matches Places::Held(
            p,
        ) && p.at@.len() > 0),
        _ => false,
    }
}

/// What is said then: the places are kept.
pub open spec fn repointed_said(name: Seq<char>, positions: Seq<char>) -> Seq<char> {
    "timberfs: "@ + name + " keeps its place in the store(s) it used to follow, in "@ + positions
        + " — the new one is read from the start, and a stale entry there holds nothing (membership is the selection's, never the file's)"@
}

/// One change of an update, to the declaration as it was changed so far, and
/// what is said of it. `followed` is the one store that this declaration
/// follows, where it follows one; `places` are those that the follower had
/// before the update, and `positions` is the file that holds them.
pub fn update_step(
    decl: &mut Declaration,
    change: Change,
    followed: Option<&str>,
    places: &Places,
    positions: &str,
) -> (r: Option<String>)
    ensures
        final(decl)@ == changed(old(decl)@, change),
        match r {
            Some(s) => repoints(change, opt_str(followed), *places) && s@ == repointed_said(
                old(decl)@.name,
                positions@,
            ),
            None => !repoints(change, opt_str(followed), *places),
        },
{
    let mut said: Option<String> = None;
    if let Change::Store { anchor, .. } = &change {
        let other = match followed {
            Some(f) => !same(f, anchor.as_str()),
            None => true,
        };
        let held = match places {
            Places::Held(p) => p.at.len() > 0,
            _ => false,
        };
        if other && held {
            said = Some(
                text("timberfs: ").concat(decl.name.as_str()).concat(
                    " keeps its place in the store(s) it used to follow, in ",
                ).concat(positions).concat(
                    " — the new one is read from the start, and a stale entry there holds nothing (membership is the selection's, never the file's)",
                ),
            );
        }
    }
    apply_change(decl, change);
    said
}

/// How many stores are let go that were never read, where there are any.
pub open spec fn never_read_said(unread: nat) -> Seq<char> {
    if unread > 0 {
        ", including "@ + decimal(unread) + " it had never read at all"@
    } else {
        ""@
    }
}

fn never_read(unread: usize) -> (r: String)
    ensures
        r@ == never_read_said(unread as nat),
{
    if unread > 0 {
        text(", including ").concat(number_text(unread as u64).as_str()).concat(
            " it had never read at all",
        )
    } else {
        text("")
    }
}

/// What is said where a follower lets go of its stores' heads. The flag can be
/// set again; its effect cannot be undone.
pub open spec fn release_said(
    before: Registered,
    after: DeclarationModel,
    held: Seq<char>,
) -> Seq<Seq<char>> {
    let name = after.name;
    let unread = unread_among(before.covered@);
    if !before.decl.retaining || after.retaining {
        Seq::empty()
    } else {
        seq![
            if total_behind(before.covered@) > 0 || unread > 0 {
                "timberfs: "@ + name + " releases the head of "@ + decimal(before.covered@.len())
                    + " store(s) — "@ + held + " it alone was holding becomes droppable"@
                    + never_read_said(unread)
            } else {
                "timberfs: "@ + name + " releases the head (it was holding nothing)"@
            },
            "timberfs: this does not undo: setting retaining=true again will not bring dropped data back, and "@
                + name + " then resumes at a position that may be gapped"@,
        ]
    }
}

/// What is said where a follower lets go of its stores' heads. `held` is how
/// much it was holding, as it is shown.
pub fn release_notes(before: &Registered, after: &Declaration, held: &str) -> (r: Vec<String>)
    requires
        before.wf(),
    ensures
        texts(r@) == release_said(*before, after@, held@),
{
    let mut out = nothing_said();
    if !before.decl.retaining || after.retaining {
        return out;
    }
    let n: usize = before.covered.len();
    let unread: usize = count_unread(&before.covered);
    if before.behind_bytes() > 0 || unread > 0 {
        say(
            &mut out,
            text("timberfs: ").concat(after.name.as_str()).concat(
                " releases the head of ",
            ).concat(number_text(n as u64).as_str()).concat(" store(s) — ").concat(held).concat(
                " it alone was holding becomes droppable",
            ).concat(never_read(unread).as_str()),
        );
    } else {
        say(
            &mut out,
            text("timberfs: ").concat(after.name.as_str()).concat(
                " releases the head (it was holding nothing)",
            ),
        );
    }
    say(
        &mut out,
        text(
            "timberfs: this does not undo: setting retaining=true again will not bring dropped data back, and ",
        ).concat(after.name.as_str()).concat(" then resumes at a position that may be gapped"),
    );
    proof {
        assert(texts(out@) =~= release_said(*before, after@, held@));
    }
    out
}

// --------------------------------------------------------------- membership

/// The first match of an identity.
pub open spec fn matched_index(v: Seq<Matched>, id: Seq<char>, i: int) -> int
    decreases v.len() - i,
{
    if i >= v.len() || (v[i].id is Some && v[i].id->Some_0@ == id) {
        i
    } else {
        matched_index(v, id, i + 1)
    }
}

/// The handles of the stores that a new selection covers and an old one did
/// not.
pub open spec fn joining(after: Seq<Matched>, before: Seq<Covered>) -> Seq<Seq<char>>
    decreases after.len(),
{
    if after.len() == 0 {
        Seq::empty()
    } else {
        let front = joining(after.drop_last(), before);
        let m = after.last();
        if m.id is Some && covered_index(before, m.id->Some_0@, 0) >= before.len() {
            front.push(m.handle@)
        } else {
            front
        }
    }
}

/// The stores that an old selection covered and a new one does not.
pub open spec fn leaving(before: Seq<Covered>, after: Seq<Matched>) -> Seq<Covered>
    decreases before.len(),
{
    if before.len() == 0 {
        Seq::empty()
    } else {
        let front = leaving(before.drop_last(), after);
        if matched_index(after, before.last().id@, 0) >= after.len() {
            front.push(before.last())
        } else {
            front
        }
    }
}

/// The handles of a list of stores.
pub open spec fn handles(v: Seq<Covered>) -> Seq<Seq<char>> {
    Seq::new(v.len(), |i: int| handle_at(v[i].path@))
}

/// What a changed selection does to the stores on either side of it. A store
/// that leaves keeps its recorded place.
pub open spec fn membership_said(
    before: Registered,
    d: DeclarationModel,
    after: Seq<Matched>,
    freed: Seq<char>,
) -> Seq<Seq<char>> {
    let come = joining(after, before.covered@);
    let go = leaving(before.covered@, after);
    let first = if come.len() == 0 {
        Seq::empty()
    } else {
        seq![
            "timberfs: "@ + d.name + " now also covers "@ + decimal(come.len()) + " store(s): "@
                + joined(come, ", "@) + (if d.retaining {
                " — and holds each of them whole until it has read it"@
            } else {
                ""@
            }),
        ]
    };
    let second = if go.len() == 0 {
        Seq::empty()
    } else {
        let named = seq![
            "timberfs: "@ + d.name + " no longer covers "@ + decimal(go.len()) + " store(s): "@
                + joined(handles(go), ", "@),
        ];
        let freed_said = if before.decl.retaining && d.retaining {
            seq![
                "timberfs: that releases their heads — "@ + freed
                    + " it was holding becomes droppable"@ + never_read_said(unread_among(go)),
            ]
        } else {
            Seq::empty()
        };
        named + freed_said + seq![
            "timberfs: each keeps its recorded place, so bringing it back into the selection resumes rather than re-ships"@,
        ]
    };
    if come.len() == 0 && go.len() == 0 {
        seq![
            "timberfs: "@ + d.name + " still covers the same "@ + decimal(after.len())
                + " store(s)"@,
        ]
    } else {
        first + second
    }
}

fn is_matched(after: &Vec<Matched>, id: &str) -> (r: bool)
    ensures
        r == (matched_index(after@, id@, 0) < after@.len()),
{
    let mut i: usize = 0;
    while i < after.len()
        invariant
            i <= after@.len(),
            matched_index(after@, id@, 0) == matched_index(after@, id@, i as int),
        decreases after@.len() - i,
    {
        if let Some(other) = &after[i].id {
            if same(other.as_str(), id) {
                return true;
            }
        }
        i = i + 1;
    }
    false
}

fn joining_handles(after: &Vec<Matched>, before: &Registered) -> (r: Vec<String>)
    ensures
        texts(r@) == joining(after@, before.covered@),
{
    let mut out = nothing_said();
    let mut i: usize = 0;
    while i < after.len()
        invariant
            i <= after@.len(),
            texts(out@) == joining(after@.take(i as int), before.covered@),
        decreases after@.len() - i,
    {
        proof {
            assert(after@.take(i + 1).drop_last() =~= after@.take(i as int));
        }
        if let Some(id) = &after[i].id {
            if before.at(id.as_str()).is_none() {
                say(&mut out, text(after[i].handle.as_str()));
            }
        }
        i = i + 1;
    }
    proof {
        assert(after@.take(i as int) =~= after@);
    }
    out
}

/// What of the stores that leave a selection is let go, counted: how many
/// there are, how many of them were never read, and how much was held.
pub struct Leaving {
    pub handles: Vec<String>,
    pub unread: usize,
    pub behind: u64,
}

proof fn lemma_leaving_behind(before: Seq<Covered>, after: Seq<Matched>)
    ensures
        total_behind(leaving(before, after)) <= total_behind(before),
    decreases before.len(),
{
    if before.len() > 0 {
        let front = leaving(before.drop_last(), after);
        lemma_leaving_behind(before.drop_last(), after);
        assert(front.push(before.last()).drop_last() =~= front);
    }
}

/// The stores that a new selection lets go of.
pub fn leaving_stores(before: &Registered, after: &Vec<Matched>) -> (r: Leaving)
    requires
        before.wf(),
    ensures
        texts(r.handles@) == handles(leaving(before.covered@, after@)),
        r.unread == unread_among(leaving(before.covered@, after@)),
        r.behind == total_behind(leaving(before.covered@, after@)),
{
    let ghost all = before.covered@;
    let mut names = nothing_said();
    let mut unread: usize = 0;
    let mut behind: u64 = 0;
    let mut i: usize = 0;
    proof {
        assert(handles(leaving(all.take(0), after@)) =~= Seq::<Seq<char>>::empty());
    }
    while i < before.covered.len()
        invariant
            i <= before.covered@.len(),
            all == before.covered@,
            before.wf(),
            unread <= i,
            texts(names@) == handles(leaving(all.take(i as int), after@)),
            unread == unread_among(leaving(all.take(i as int), after@)),
            behind == total_behind(leaving(all.take(i as int), after@)),
        decreases before.covered@.len() - i,
    {
        let c = &before.covered[i];
        let ghost front = leaving(all.take(i as int), after@);
        proof {
            assert(all.take(i + 1).drop_last() =~= all.take(i as int));
            assert(front.push(*c).drop_last() =~= front);
            lemma_leaving_behind(all.take(i + 1), after@);
            crate::follower::lemma_total_behind_grows(all, i + 1);
            assert(handles(front.push(*c)) =~= handles(front).push(handle_at(c.path@)));
        }
        if !is_matched(after, c.id.as_str()) {
            say(&mut names, c.handle());
            if !c.read {
                unread = unread + 1;
            }
            behind = behind + c.behind_bytes();
        }
        i = i + 1;
    }
    proof {
        assert(all.take(i as int) =~= all);
    }
    Leaving { handles: names, unread, behind }
}

/// What a changed selection does to the stores on either side of it. `freed`
/// is how much of the leaving stores was held, as it is shown.
pub fn report_membership_change(
    before: &Registered,
    decl: &Declaration,
    after: &Vec<Matched>,
    freed: &str,
) -> (r: Vec<String>)
    requires
        before.wf(),
    ensures
        texts(r@) == membership_said(*before, decl@, after@, freed@),
{
    let come = joining_handles(after, before);
    let go = leaving_stores(before, after);
    let n: usize = come.len();
    let m: usize = go.handles.len();
    let all: usize = after.len();
    let mut out = nothing_said();
    proof {
        assert(texts(come@).len() == n);
        assert(texts(go.handles@).len() == m);
    }
    if n == 0 && m == 0 {
        say(
            &mut out,
            text("timberfs: ").concat(decl.name.as_str()).concat(
                " still covers the same ",
            ).concat(number_text(all as u64).as_str()).concat(" store(s)"),
        );
        proof {
            assert(texts(out@) =~= membership_said(*before, decl@, after@, freed@));
        }
        return out;
    }
    if n > 0 {
        let whole = if decl.retaining {
            " — and holds each of them whole until it has read it"
        } else {
            ""
        };
        say(
            &mut out,
            text("timberfs: ").concat(decl.name.as_str()).concat(" now also covers ").concat(
                number_text(n as u64).as_str(),
            ).concat(" store(s): ").concat(join(&come, ", ").as_str()).concat(whole),
        );
    }
    if m > 0 {
        say(
            &mut out,
            text("timberfs: ").concat(decl.name.as_str()).concat(" no longer covers ").concat(
                number_text(m as u64).as_str(),
            ).concat(" store(s): ").concat(join(&go.handles, ", ").as_str()),
        );
        if before.decl.retaining && decl.retaining {
            say(
                &mut out,
                text("timberfs: that releases their heads — ").concat(freed).concat(
                    " it was holding becomes droppable",
                ).concat(never_read(go.unread).as_str()),
            );
        }
        say(
            &mut out,
            text(
                "timberfs: each keeps its recorded place, so bringing it back into the selection resumes rather than re-ships",
            ),
        );
    }
    proof {
        assert(texts(out@) =~= membership_said(*before, decl@, after@, freed@));
    }
    out
}

/// What an update ends in.
#[derive(Clone, Debug, PartialEq, Eq)]
pub enum UpdateEnd {
    /// Nothing is written, because nothing changed; what is said.
    Unchanged(String),
    /// Nothing is written, because nothing was to be.
    DryRun,
    /// The declaration is written; what is said where the follower runs with
    /// the old one.
    Write(Option<String>),
}

/// What an update ends in.
pub fn update_end(before: &Registered, decl: &Declaration, dry_run: bool) -> (r: UpdateEnd)
    ensures
        if decl@ == before.decl@ {
            r matches UpdateEnd::Unchanged(s) && s@ == "timberfs: "@ + decl.name@
                + " already declares that; nothing written"@
        } else if dry_run {
            r is DryRun
        } else if before.live == Liveness::Running {
            r matches UpdateEnd::Write(Some(s)) && s@ == "timberfs: "@ + decl.name@
                + " is running with the OLD declaration — `systemctl restart "@ + unit_of(
                decl.name@,
            ) + "` to pick this up"@
        } else {
            r matches UpdateEnd::Write(None)
        },
        r is Unchanged <==> decl@ == before.decl@,
        r is DryRun <==> decl@ != before.decl@ && dry_run,
        r is Write ==> (r->Write_0 is Some <==> before.live is Running),
{
    if decl.equals(&before.decl) {
        return UpdateEnd::Unchanged(
            text("timberfs: ").concat(decl.name.as_str()).concat(
                " already declares that; nothing written",
            ),
        );
    }
    if dry_run {
        return UpdateEnd::DryRun;
    }
    match before.live {
        Liveness::Running => UpdateEnd::Write(
            Some(
                text("timberfs: ").concat(decl.name.as_str()).concat(
                    " is running with the OLD declaration — `systemctl restart ",
                ).concat(unit_name(decl.name.as_str()).as_str()).concat("` to pick this up"),
            ),
        ),
        _ => UpdateEnd::Write(None),
    }
}

// ------------------------------------------------------------------- delete

/// Why a follower is not deleted.
#[derive(Clone, Debug, PartialEq, Eq)]
pub enum DeleteError {
    Name(NameError),
    NoFollower { name: String, reg: String },
    Retaining { name: String },
    /// It is running; who holds its lock, where that is known.
    Running { name: String, holder: Option<String> },
    Unknown { name: String, lock: String },
}

impl DeleteError {
    /// What the error says.
    pub open spec fn said(self) -> Seq<char> {
        match self {
            DeleteError::Name(e) => crate::follower::follower_name_said(e),
            DeleteError::NoFollower { name, reg } => "no follower "@ + name@ + " in "@ + reg@,
            DeleteError::Retaining { name } => name@
                + " is retaining, so deleting it would silently release the store's head. Release it deliberately first:\n  timberfs follower update "@
                + name@ + " retaining=false\n  timberfs follower delete "@ + name@,
            DeleteError::Running { name, holder } => name@ + " is running"@ + (match holder {
                Some(w) => " ("@ + w@ + ")"@,
                None => ""@,
            })
                + " — deleting it now would leave it writing an unlinked positions file, doing nothing at all. Stop it first (`--stop`, or `systemctl stop "@
                + unit_of(name@) + "`)"@,
            DeleteError::Unknown { name, lock } => "cannot tell whether "@ + name@
                + " is running: "@ + lock@ + " is not readable from here"@,
        }
    }

    /// What the error says.
    pub fn message(&self) -> (r: String)
        ensures
            r@ == self.said(),
    {
        match self {
            DeleteError::Name(e) => crate::follower::follower_name_message(e),
            DeleteError::NoFollower { name, reg } => text("no follower ").concat(
                name.as_str(),
            ).concat(" in ").concat(reg.as_str()),
            DeleteError::Retaining { name } => text(name.as_str()).concat(
                " is retaining, so deleting it would silently release the store's head. Release it deliberately first:\n  timberfs follower update ",
            ).concat(name.as_str()).concat(" retaining=false\n  timberfs follower delete ").concat(
                name.as_str(),
            ),
            DeleteError::Running { name, holder } => {
                let who = match holder {
                    Some(w) => text(" (").concat(w.as_str()).concat(")"),
                    None => text(""),
                };
                text(name.as_str()).concat(" is running").concat(who.as_str()).concat(
                    " — deleting it now would leave it writing an unlinked positions file, doing nothing at all. Stop it first (`--stop`, or `systemctl stop ",
                ).concat(unit_name(name.as_str()).as_str()).concat("`)")
            },
            DeleteError::Unknown { name, lock } => text("cannot tell whether ").concat(
                name.as_str(),
            ).concat(" is running: ").concat(lock.as_str()).concat(" is not readable from here"),
        }
    }
}

/// Whether a follower may be deleted, asked before anything is touched: not
/// while it retains stores that are there. One whose declaration cannot be
/// read holds nothing back, and neither does one whose stores are gone.
pub fn delete_step(name: &str, reg: &str, there: bool, read: Option<&Registered>) -> (r: Result<
    (),
    DeleteError,
>)
    ensures
        if !is_name(name@) {
            r matches Err(DeleteError::Name(e)) && name_outcome(name, Err(e))
        } else if !there {
            r matches Err(DeleteError::NoFollower { name: n, reg: d }) && n@ == name@ && d@ == reg@
        } else if read is Some && read->Some_0.decl.retaining && read->Some_0.covered@.len() > 0 {
            r matches Err(DeleteError::Retaining { name: n }) && n@ == name@
        } else {
            r is Ok
        },
        r is Ok ==> is_name(name@) && there,
        r is Ok && read is Some ==> !read->Some_0.decl.retaining
            || read->Some_0.covered@.len() == 0,
        is_name(name@) && there && (read is None || !read->Some_0.decl.retaining) ==> r is Ok,
{
    if let Err(e) = validate_name(name) {
        return Err(DeleteError::Name(e));
    }
    if !there {
        return Err(DeleteError::NoFollower { name: text(name), reg: text(reg) });
    }
    if let Some(f) = read {
        if f.decl.retaining && f.covered.len() > 0 {
            return Err(DeleteError::Retaining { name: text(name) });
        }
    }
    Ok(())
}

/// Whether a follower may be deleted, by what its lock shows once it was
/// stopped: not from under its own process, which would go on writing a file
/// that is no longer there.
pub fn delete_live(name: &str, reg: &str, live: Liveness, holder: Option<String>) -> (r: Result<
    (),
    DeleteError,
>)
    ensures
        match live {
            Liveness::Running => r matches Err(DeleteError::Running { name: n, holder: h }) && n@
                == name@ && opt_string(h) == opt_string(holder),
            Liveness::Unknown => r matches Err(DeleteError::Unknown { name: n, lock })
                && n@ == name@
                && lock@ == join_path(join_path(reg@, name@), "follower.lock"@),
            Liveness::Stopped => r is Ok,
        },
        r is Ok <==> live is Stopped,
{
    match live {
        Liveness::Running => Err(DeleteError::Running { name: text(name), holder }),
        Liveness::Unknown => Err(
            DeleteError::Unknown { name: text(name), lock: lock_path(reg, name) },
        ),
        Liveness::Stopped => Ok(()),
    }
}

// --------------------------------------------------------------------- laws

/// An update never touches identity, nor what is not known here: it keeps the
/// name, when the follower was created, and every unknown key.
pub proof fn an_update_never_touches_identity(
    d: DeclarationModel,
    changes: Seq<Change>,
    unsets: Seq<Seq<char>>,
)
    ensures
        all_unset(all_changed(d, changes), unsets) matches Ok(e) ==> e.name == d.name && e.created
            == d.created && e.extra == d.extra && e.command == d.command,
    decreases changes.len(), unsets.len(),
{
    if unsets.len() > 0 {
        an_update_never_touches_identity(d, changes, unsets.drop_last());
    } else if changes.len() > 0 {
        an_update_never_touches_identity(d, changes.drop_last(), unsets);
    }
}

/// A selection that covers the same stores as before gains none and loses
/// none, and each store that was covered either stays or is among those told
/// to leave.
pub proof fn every_store_stays_or_leaves(before: Seq<Covered>, after: Seq<Matched>, i: int)
    requires
        0 <= i < before.len(),
    ensures
        matched_index(after, before[i].id@, 0) < after.len() || leaving(before, after).contains(
            before[i],
        ),
    decreases before.len(),
{
    if matched_index(after, before[i].id@, 0) >= after.len() {
        let front = leaving(before.drop_last(), after);
        if i < before.len() - 1 {
            every_store_stays_or_leaves(before.drop_last(), after, i);
            let j = choose|j: int| 0 <= j < front.len() && front[j] == before[i];
            assert(leaving(before, after)[j] == before[i]);
        } else {
            assert(leaving(before, after)[front.len() as int] == before[i]);
        }
    }
}

} // verus!
