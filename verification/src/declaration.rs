//! A follower's declaration: the operator's half of a registration.
//!
//! It says which stores are followed, whether the follower holds their heads
//! back, and which program is fed. Keys that are not known here are kept, so
//! that an update cannot eat what a newer version wrote.

use crate::bark::{opt_string, ManifestModel};
use crate::json::{
    flag_in, item_models, json_object, json_text, fields_map, text_in, Fields, Item, ItemModel,
    Json, JsonModel,
};
use crate::paths::{same_path, same_paths};
use crate::text::{chars_of, copy_texts, debug_text, quoted, same, text, texts, trim, trimmed};
use vstd::prelude::*;
use vstd::string::StringExecFns;

verus! {

/// A follower's declaration.
#[derive(Debug, Clone)]
pub struct Declaration {
    /// The registry directory's name, which is authoritative. Written into the
    /// file too, so that a copied directory can be caught.
    pub name: String,
    /// Which stores this follows, as a selector. One store is the one-term
    /// case `[id=<its id>]`.
    pub select: String,
    /// Does this follower hold the store's head back? Declared, so it cannot
    /// be acquired by leaving a file somewhere.
    pub retaining: bool,
    /// The consumer: a program and its arguments, recorded verbatim as a list
    /// so that nothing makes a quoting round trip on the way to it.
    pub command: Vec<String>,
    /// Where a store that this follower has never read is picked up, as it is
    /// spelled. Nothing where the default applies.
    pub follow_from: Option<String>,
    /// Extra directories to sweep beside the configured forests: places to
    /// look, never addresses.
    pub look_in: Vec<String>,
    pub created: String,
    /// Keys that are not known here.
    pub extra: Fields,
}

/// What a declaration is.
pub struct DeclarationModel {
    pub name: Seq<char>,
    pub select: Seq<char>,
    pub retaining: bool,
    pub command: Seq<Seq<char>>,
    pub follow_from: Option<Seq<char>>,
    pub look_in: Seq<Seq<char>>,
    pub created: Seq<char>,
    pub extra: ManifestModel,
}

impl View for Declaration {
    type V = DeclarationModel;

    open spec fn view(&self) -> DeclarationModel {
        DeclarationModel {
            name: self.name@,
            select: self.select@,
            retaining: self.retaining,
            command: texts(self.command@),
            follow_from: opt_string(self.follow_from),
            look_in: texts(self.look_in@),
            created: self.created@,
            extra: self.extra@,
        }
    }
}

/// Why a declaration cannot be read.
#[derive(Debug, Clone, PartialEq, Eq)]
pub enum DeclarationError {
    NotAnObject { file: String },
    /// The file names another follower than the directory it is in does.
    Copied { file: String, declared: String, name: String },
    NoSelection { file: String },
    /// A list holds something that is no text, written as JSON.
    NotText { key: String, found: String },
    /// Where a list is wanted, there is something else, written as JSON.
    NotAList { key: String, found: String },
    /// No program to feed, and the type that is named instead.
    NoCommand { file: String, kind: String },
}

/// What a `DeclarationError` says.
pub enum DeclarationProblem {
    NotAnObject { file: Seq<char> },
    Copied { file: Seq<char>, declared: Seq<char>, name: Seq<char> },
    NoSelection { file: Seq<char> },
    NotText { key: Seq<char>, found: Seq<char> },
    NotAList { key: Seq<char>, found: Seq<char> },
    NoCommand { file: Seq<char>, kind: Seq<char> },
}

impl View for DeclarationError {
    type V = DeclarationProblem;

    open spec fn view(&self) -> DeclarationProblem {
        match *self {
            DeclarationError::NotAnObject { file } => DeclarationProblem::NotAnObject {
                file: file@,
            },
            DeclarationError::Copied { file, declared, name } => DeclarationProblem::Copied {
                file: file@,
                declared: declared@,
                name: name@,
            },
            DeclarationError::NoSelection { file } => DeclarationProblem::NoSelection {
                file: file@,
            },
            DeclarationError::NotText { key, found } => DeclarationProblem::NotText {
                key: key@,
                found: found@,
            },
            DeclarationError::NotAList { key, found } => DeclarationProblem::NotAList {
                key: key@,
                found: found@,
            },
            DeclarationError::NoCommand { file, kind } => DeclarationProblem::NoCommand {
                file: file@,
                kind: kind@,
            },
        }
    }
}

impl DeclarationProblem {
    /// What the error says.
    pub open spec fn said(self) -> Seq<char> {
        match self {
            DeclarationProblem::NotAnObject { file } => file + " is not a JSON object"@,
            DeclarationProblem::Copied { file, declared, name } => file + " declares the name "@
                + quoted(declared) + " but sits in "@ + quoted(name)
                + " — a copied registry directory, and two followers sharing one position is the collision a registry exists to prevent. Fix the name, or remove the copy"@,
            DeclarationProblem::NoSelection { file } => file
                + " names no \"select\" — a follower follows the stores a predicate matches. One store is `[id=<its id>]`; every store is `[]`, which is a thing to have written rather than a member to leave out"@,
            DeclarationProblem::NotText { key, found } => quoted(key) + " holds "@ + found
                + ", which is not a string"@,
            DeclarationProblem::NotAList { key, found } => quoted(key) + " must be an array, got "@
                + found,
            DeclarationProblem::NoCommand { file, kind } => file + " "@ + (if kind.len() == 0 {
                "declares no \"command\""@
            } else {
                "declares `type: "@ + kind + "`, which no longer means anything"@
            })
                + ". A follower is fed a PROGRAM, and that program says how far to move each store's position — so give it one:\n  timberfs follower update <name> -- timber-otlp --endpoint http://collector:4318"@,
        }
    }
}

impl DeclarationError {
    /// What the error says.
    pub fn message(&self) -> (r: String)
        ensures
            r@ == self@.said(),
    {
        match self {
            DeclarationError::NotAnObject { file } => text(file.as_str()).concat(
                " is not a JSON object",
            ),
            DeclarationError::Copied { file, declared, name } => text(file.as_str()).concat(
                " declares the name ",
            ).concat(debug_text(declared.as_str()).as_str()).concat(" but sits in ").concat(
                debug_text(name.as_str()).as_str(),
            ).concat(
                " — a copied registry directory, and two followers sharing one position is the collision a registry exists to prevent. Fix the name, or remove the copy",
            ),
            DeclarationError::NoSelection { file } => text(file.as_str()).concat(
                " names no \"select\" — a follower follows the stores a predicate matches. One store is `[id=<its id>]`; every store is `[]`, which is a thing to have written rather than a member to leave out",
            ),
            DeclarationError::NotText { key, found } => debug_text(key.as_str()).concat(
                " holds ",
            ).concat(found.as_str()).concat(", which is not a string"),
            DeclarationError::NotAList { key, found } => debug_text(key.as_str()).concat(
                " must be an array, got ",
            ).concat(found.as_str()),
            DeclarationError::NoCommand { file, kind } => {
                let what = if kind.as_str().is_empty() {
                    text("declares no \"command\"")
                } else {
                    text("declares `type: ").concat(kind.as_str()).concat(
                        "`, which no longer means anything",
                    )
                };
                text(file.as_str()).concat(" ").concat(what.as_str()).concat(
                    ". A follower is fed a PROGRAM, and that program says how far to move each store's position — so give it one:\n  timberfs follower update <name> -- timber-otlp --endpoint http://collector:4318",
                )
            },
        }
    }
}

// ------------------------------------------------------------------ reading

/// The text of a field, or nothing said.
pub open spec fn text_or_nothing(m: ManifestModel, key: Seq<char>) -> Seq<char> {
    match text_in(m, key) {
        Some(s) => s,
        None => Seq::empty(),
    }
}

/// The one-term selection for a store.
pub open spec fn one_store(id: Seq<char>) -> Seq<char> {
    "[id="@ + id + "]"@
}

/// The selection that a declaration states: its own, or that of the one store
/// an older declaration names. Nothing is assumed where none is stated.
pub open spec fn selection(m: ManifestModel, file: Seq<char>, name: Seq<char>) -> Result<
    Seq<char>,
    DeclarationProblem,
> {
    let legacy = text_or_nothing(m, "store"@);
    match text_in(m, "name"@) {
        Some(declared) if declared != name => Err(
            DeclarationProblem::Copied { file, declared, name },
        ),
        _ => match text_in(m, "select"@) {
            Some(s) if trim(s).len() > 0 => Ok(s),
            _ => if legacy.len() > 0 {
                Ok(one_store(legacy))
            } else {
                Err(DeclarationProblem::NoSelection { file })
            },
        },
    }
}

/// The texts of a list; an error at the first that is none.
pub open spec fn all_texts(key: Seq<char>, items: Seq<ItemModel>) -> Result<
    Seq<Seq<char>>,
    DeclarationProblem,
>
    decreases items.len(),
{
    if items.len() == 0 {
        Ok(Seq::empty())
    } else {
        match all_texts(key, items.drop_last()) {
            Err(e) => Err(e),
            Ok(v) => match items.last() {
                ItemModel::Text(s) => Ok(v.push(s)),
                ItemModel::Other(s) => Err(DeclarationProblem::NotText { key, found: s }),
            },
        }
    }
}

/// The list of texts that a field holds: empty where there is none.
pub open spec fn list_in(m: ManifestModel, key: Seq<char>) -> Result<
    Seq<Seq<char>>,
    DeclarationProblem,
> {
    if !m.contains_key(key) || m[key] == JsonModel::Null {
        Ok(Seq::empty())
    } else {
        match m[key] {
            JsonModel::List(items) => all_texts(key, items),
            other => Err(DeclarationProblem::NotAList { key, found: json_text(other) }),
        }
    }
}

/// Whether a key is one that a declaration is read from, or that a command
/// replaced.
pub open spec fn declaration_key(k: Seq<char>) -> bool {
    k == "name"@ || k == "store"@ || k == "select"@ || k == "retaining"@ || k == "command"@ || k
        == "args"@ || k == "type"@ || k == "endpoint"@ || k == "path"@ || k == "follow_from"@ || k
        == "look_in"@ || k == "created"@
}

/// The fields that are not known here.
pub open spec fn unknown_fields(m: ManifestModel) -> ManifestModel {
    m.remove_keys(
        set![
            "name"@,
            "store"@,
            "select"@,
            "retaining"@,
            "command"@,
            "args"@,
            "type"@,
            "endpoint"@,
            "path"@,
            "follow_from"@,
            "look_in"@,
            "created"@,
        ],
    )
}

/// The declaration that an object states, with its selection as given.
pub open spec fn declaration(
    m: ManifestModel,
    file: Seq<char>,
    name: Seq<char>,
    select: Seq<char>,
) -> Result<DeclarationModel, DeclarationProblem> {
    match list_in(m, "command"@) {
        Err(e) => Err(e),
        Ok(command) => if command.len() == 0 {
            Err(DeclarationProblem::NoCommand { file, kind: text_or_nothing(m, "type"@) })
        } else {
            match list_in(m, "look_in"@) {
                Err(e) => Err(e),
                Ok(look_in) => Ok(
                    DeclarationModel {
                        name,
                        select,
                        retaining: flag_in(m, "retaining"@),
                        command,
                        follow_from: text_in(m, "follow_from"@),
                        look_in,
                        created: text_or_nothing(m, "created"@),
                        extra: unknown_fields(m),
                    },
                ),
            }
        },
    }
}

/// What a list of texts that may not be one is.
spec fn list_outcome(r: Result<Vec<String>, DeclarationError>) -> Result<
    Seq<Seq<char>>,
    DeclarationProblem,
> {
    match r {
        Ok(v) => Ok(texts(v@)),
        Err(e) => Err(e@),
    }
}

/// What fails for the first members of a list fails for the list.
proof fn lemma_all_texts_stops(key: Seq<char>, items: Seq<ItemModel>, k: int)
    requires
        0 <= k <= items.len(),
        all_texts(key, items.take(k)) is Err,
    ensures
        all_texts(key, items) == all_texts(key, items.take(k)),
    decreases items.len(),
{
    if k == items.len() {
        assert(items.take(k) =~= items);
    } else {
        assert(items.drop_last().take(k) =~= items.take(k));
        lemma_all_texts_stops(key, items.drop_last(), k);
    }
}

/// The list of texts that a field holds.
fn list_at(map: &Fields, key: &str) -> (r: Result<Vec<String>, DeclarationError>)
    ensures
        list_outcome(r) == list_in(map@, key@),
{
    let mut out: Vec<String> = Vec::new();
    proof {
        assert(texts(out@) =~= Seq::<Seq<char>>::empty());
    }
    match map.get(key) {
        None => Ok(out),
        Some(Json::Null) => Ok(out),
        Some(Json::List(v)) => {
            let ghost items = item_models(v@);
            let mut i: usize = 0;
            while i < v.len()
                invariant
                    i <= v@.len(),
                    items == item_models(v@),
                    map@.contains_key(key@),
                    map@[key@] == JsonModel::List(items),
                    all_texts(key@, items.take(i as int)) == Ok::<
                        Seq<Seq<char>>,
                        DeclarationProblem,
                    >(texts(out@)),
                decreases v@.len() - i,
            {
                proof {
                    assert(items.take(i + 1).drop_last() =~= items.take(i as int));
                    assert(items.take(i + 1).last() == v@[i as int]@);
                }
                match &v[i] {
                    Item::Text(s) => {
                        let ghost was = out@;
                        let copy = text(s.as_str());
                        out.push(copy);
                        proof {
                            assert(texts(out@) =~= texts(was).push(copy@));
                        }
                    },
                    Item::Other(s) => {
                        proof {
                            lemma_all_texts_stops(key@, items, i + 1);
                        }
                        return Err(
                            DeclarationError::NotText { key: text(key), found: text(s.as_str()) },
                        );
                    },
                }
                i = i + 1;
            }
            proof {
                assert(items.take(i as int) =~= items);
            }
            Ok(out)
        },
        Some(other) => Err(DeclarationError::NotAList { key: text(key), found: other.compact() }),
    }
}

fn text_or_empty(map: &Fields, key: &str) -> (r: String)
    ensures
        r@ == text_or_nothing(map@, key@),
{
    match map.text_at(key) {
        Some(s) => s,
        None => {
            let r = String::new();
            proof {
                assert(r@ =~= Seq::<char>::empty());
            }
            r
        },
    }
}

/// The object of a declaration file.
pub fn parse_declaration(content: &str, file: &str) -> (r: Result<Fields, DeclarationError>)
    ensures
        match r {
            Ok(m) => json_object(content@) is Some && m@ == fields_map(
                json_object(content@)->Some_0,
            ),
            Err(e) => json_object(content@) is None && e@ == (DeclarationProblem::NotAnObject {
                file: file@,
            }),
        },
{
    match Fields::parse(content) {
        Some(m) => Ok(m),
        None => Err(DeclarationError::NotAnObject { file: text(file) }),
    }
}

/// The selection that the declaration of `name` states. A name that disagrees
/// with the directory means that the directory was copied, and two followers
/// sharing one position is what a registry exists to prevent.
pub fn stated_selection(map: &Fields, file: &str, name: &str) -> (r: Result<
    String,
    DeclarationError,
>)
    ensures
        match r {
            Ok(s) => selection(map@, file@, name@) == Ok::<Seq<char>, DeclarationProblem>(s@),
            Err(e) => selection(map@, file@, name@) == Err::<Seq<char>, DeclarationProblem>(e@),
        },
{
    if let Some(declared) = map.text_at("name") {
        if !same(declared.as_str(), name) {
            return Err(
                DeclarationError::Copied { file: text(file), declared, name: text(name) },
            );
        }
    }
    if let Some(s) = map.text_at("select") {
        let cs = chars_of(s.as_str());
        if trimmed(cs.as_slice()).len() > 0 {
            return Ok(s);
        }
    }
    let legacy = text_or_empty(map, "store");
    if !legacy.as_str().is_empty() {
        Ok(text("[id=").concat(legacy.as_str()).concat("]"))
    } else {
        Err(DeclarationError::NoSelection { file: text(file) })
    }
}

impl Declaration {
    /// Reads a declaration whose selection, as `select` spells it, is known to
    /// be one. What a command replaced is taken out rather than kept, so that
    /// a declaration never describes two arrangements at once.
    pub fn load(map: &Fields, file: &str, name: &str, select: &str) -> (r: Result<
        Declaration,
        DeclarationError,
    >)
        ensures
            match r {
                Ok(d) => declaration(map@, file@, name@, select@) == Ok::<
                    DeclarationModel,
                    DeclarationProblem,
                >(d@),
                Err(e) => declaration(map@, file@, name@, select@) == Err::<
                    DeclarationModel,
                    DeclarationProblem,
                >(e@),
            },
    {
        let command = match list_at(map, "command") {
            Ok(v) => v,
            Err(e) => {
                return Err(e);
            },
        };
        proof {
            assert(texts(command@).len() == command@.len());
        }
        if command.len() == 0 {
            return Err(
                DeclarationError::NoCommand { file: text(file), kind: text_or_empty(map, "type") },
            );
        }
        let look_in = match list_at(map, "look_in") {
            Ok(v) => v,
            Err(e) => {
                return Err(e);
            },
        };
        let mut extra = map.copy();
        extra.remove("name");
        extra.remove("store");
        extra.remove("select");
        extra.remove("retaining");
        extra.remove("command");
        extra.remove("args");
        extra.remove("type");
        extra.remove("endpoint");
        extra.remove("path");
        extra.remove("follow_from");
        extra.remove("look_in");
        extra.remove("created");
        proof {
            assert(extra@ =~= unknown_fields(map@));
        }
        Ok(
            Declaration {
                name: text(name),
                select: text(select),
                retaining: map.flag_at("retaining"),
                command,
                follow_from: map.text_at("follow_from"),
                look_in,
                created: text_or_empty(map, "created"),
                extra,
            },
        )
    }
}

// ------------------------------------------------------------------ writing

/// A list of texts, as a value.
pub open spec fn text_list(v: Seq<Seq<char>>) -> JsonModel {
    JsonModel::List(Seq::new(v.len(), |i: int| ItemModel::Text(v[i])))
}

/// The object that states a declaration: the keys that are not known here
/// stay, and what is known is stated over them.
pub open spec fn declared_fields(d: DeclarationModel) -> ManifestModel {
    let base = d.extra.insert("name"@, JsonModel::Text(d.name)).insert(
        "select"@,
        JsonModel::Text(d.select),
    ).insert("retaining"@, JsonModel::Bool(d.retaining)).insert(
        "command"@,
        text_list(d.command),
    ).insert("created"@, JsonModel::Text(d.created));
    let from = match d.follow_from {
        Some(s) => base.insert("follow_from"@, JsonModel::Text(s)),
        None => base,
    };
    if d.look_in.len() > 0 {
        from.insert("look_in"@, text_list(d.look_in))
    } else {
        from
    }
}

fn items_of(v: &Vec<String>) -> (r: Json)
    ensures
        r@ == text_list(texts(v@)),
{
    let mut items: Vec<Item> = Vec::new();
    let mut i: usize = 0;
    while i < v.len()
        invariant
            i <= v@.len(),
            items@.len() == i,
            forall|j: int| 0 <= j < i ==> (#[trigger] items@[j])@ == ItemModel::Text(v@[j]@),
        decreases v@.len() - i,
    {
        items.push(Item::Text(text(v[i].as_str())));
        i = i + 1;
    }
    proof {
        let t = texts(v@);
        assert(item_models(items@) =~= Seq::new(t.len(), |i: int| ItemModel::Text(t[i])));
    }
    Json::List(items)
}

/// Whether two texts that may be missing say the same.
fn same_maybe(a: &Option<String>, b: &Option<String>) -> (r: bool)
    ensures
        r == (opt_string(*a) == opt_string(*b)),
{
    match (a, b) {
        (Some(x), Some(y)) => same(x.as_str(), y.as_str()),
        (None, None) => true,
        _ => false,
    }
}

/// Whether two lists of texts say the same.
pub fn same_texts(a: &Vec<String>, b: &Vec<String>) -> (r: bool)
    ensures
        r == (texts(a@) == texts(b@)),
{
    if a.len() != b.len() {
        assert(texts(a@).len() != texts(b@).len());
        return false;
    }
    let mut i: usize = 0;
    while i < a.len()
        invariant
            i <= a@.len(),
            a@.len() == b@.len(),
            forall|j: int| 0 <= j < i ==> (#[trigger] a@[j])@ == b@[j]@,
        decreases a@.len() - i,
    {
        if !same(a[i].as_str(), b[i].as_str()) {
            assert(texts(a@)[i as int] != texts(b@)[i as int]);
            return false;
        }
        i = i + 1;
    }
    assert(texts(a@) =~= texts(b@));
    true
}

/// Where a store that was never read is picked up.
#[derive(Debug, Clone, PartialEq, Eq)]
pub enum PickUp {
    /// As the declaration says.
    Declared(String),
    /// At its beginning.
    Begin,
    /// Where it was when it was discovered.
    Discovery,
}

/// The directories that a selection is resolved against, after those of the
/// first `n` places to look that are not among them.
pub open spec fn swept(dirs: Seq<Seq<char>>, look_in: Seq<Seq<char>>) -> Seq<Seq<char>>
    decreases look_in.len(),
{
    if look_in.len() == 0 {
        dirs
    } else {
        let front = swept(dirs, look_in.drop_last());
        if exists|i: int| 0 <= i < front.len() && same_path(#[trigger] front[i], look_in.last()) {
            front
        } else {
            front.push(look_in.last())
        }
    }
}

/// Whether a list of paths has one.
pub(crate) fn has_path(dirs: &Vec<String>, p: &str) -> (r: bool)
    ensures
        r == exists|i: int|
            0 <= i < texts(dirs@).len() && same_path(#[trigger] texts(dirs@)[i], p@),
{
    let mut i: usize = 0;
    while i < dirs.len()
        invariant
            i <= dirs@.len(),
            forall|j: int| 0 <= j < i ==> !same_path(#[trigger] texts(dirs@)[j], p@),
        decreases dirs@.len() - i,
    {
        if same_paths(dirs[i].as_str(), p) {
            assert(same_path(texts(dirs@)[i as int], p@));
            return true;
        }
        i = i + 1;
    }
    false
}

/// The directories that are looked in: the configured forests, and each place
/// to look that is none of those before it.
pub fn sweep(forests: &Vec<String>, look_in: &Vec<String>) -> (r: Vec<String>)
    ensures
        texts(r@) == swept(texts(forests@), texts(look_in@)),
{
    let ghost all = texts(look_in@);
    let mut dirs = copy_texts(forests);
    let mut i: usize = 0;
    while i < look_in.len()
        invariant
            i <= look_in@.len(),
            all == texts(look_in@),
            texts(dirs@) == swept(texts(forests@), all.take(i as int)),
        decreases look_in@.len() - i,
    {
        proof {
            assert(all.take(i + 1).drop_last() =~= all.take(i as int));
            assert(all.take(i + 1).last() == look_in@[i as int]@);
        }
        if !has_path(&dirs, look_in[i].as_str()) {
            let ghost was = dirs@;
            let d = text(look_in[i].as_str());
            dirs.push(d);
            proof {
                assert(texts(dirs@) =~= texts(was).push(d@));
            }
        }
        i = i + 1;
    }
    proof {
        assert(all.take(i as int) =~= all);
    }
    dirs
}

impl Declaration {
    /// The object that states the declaration.
    pub fn to_map(&self) -> (r: Fields)
        ensures
            r@ == declared_fields(self@),
    {
        let mut map = self.extra.copy();
        map.insert("name", Json::Text(text(self.name.as_str())));
        map.insert("select", Json::Text(text(self.select.as_str())));
        map.insert("retaining", Json::Bool(self.retaining));
        map.insert("command", items_of(&self.command));
        map.insert("created", Json::Text(text(self.created.as_str())));
        if let Some(from) = &self.follow_from {
            map.insert("follow_from", Json::Text(text(from.as_str())));
        }
        if self.look_in.len() > 0 {
            map.insert("look_in", items_of(&self.look_in));
        }
        map
    }

    /// Every directory that the selection is resolved against: the configured
    /// forests, and whatever `look_in` adds to them.
    pub fn sweeps(&self, forests: &Vec<String>) -> (r: Vec<String>)
        ensures
            texts(r@) == swept(texts(forests@), self@.look_in),
    {
        sweep(forests, &self.look_in)
    }

    /// The policy in force. Retaining implies the beginning: it promises that
    /// nothing is lost until this follower has it, so skipping a backlog on
    /// the first read would contradict the declaration.
    pub fn picks_up(&self) -> (r: PickUp)
        ensures
            match r {
                PickUp::Declared(s) => self@.follow_from == Some(s@),
                PickUp::Begin => self@.follow_from is None && self.retaining,
                PickUp::Discovery => self@.follow_from is None && !self.retaining,
            },
    {
        match &self.follow_from {
            Some(s) => PickUp::Declared(text(s.as_str())),
            None => if self.retaining {
                PickUp::Begin
            } else {
                PickUp::Discovery
            },
        }
    }

    /// A copy of the declaration.
    pub fn copy(&self) -> (r: Declaration)
        ensures
            r@ == self@,
    {
        Declaration {
            name: text(self.name.as_str()),
            select: text(self.select.as_str()),
            retaining: self.retaining,
            command: copy_texts(&self.command),
            follow_from: match &self.follow_from {
                Some(s) => Some(text(s.as_str())),
                None => None,
            },
            look_in: copy_texts(&self.look_in),
            created: text(self.created.as_str()),
            extra: self.extra.copy(),
        }
    }

    /// Whether two declarations say the same.
    pub fn equals(&self, other: &Declaration) -> (r: bool)
        ensures
            r == (self@ == other@),
    {
        same(self.name.as_str(), other.name.as_str()) && same(
            self.select.as_str(),
            other.select.as_str(),
        ) && self.retaining == other.retaining && same_texts(&self.command, &other.command)
            && same_maybe(&self.follow_from, &other.follow_from) && same_texts(
            &self.look_in,
            &other.look_in,
        ) && same(self.created.as_str(), other.created.as_str()) && self.extra.equals(&other.extra)
    }
}

// --------------------------------------------------------------------- laws

proof fn lemma_all_texts_of(key: Seq<char>, v: Seq<Seq<char>>)
    ensures
        all_texts(key, Seq::new(v.len(), |i: int| ItemModel::Text(v[i]))) == Ok::<
            Seq<Seq<char>>,
            DeclarationProblem,
        >(v),
    decreases v.len(),
{
    let items = Seq::new(v.len(), |i: int| ItemModel::Text(v[i]));
    if v.len() == 0 {
        assert(v =~= Seq::empty());
    } else {
        let front = v.drop_last();
        lemma_all_texts_of(key, front);
        assert(items.drop_last() =~= Seq::new(front.len(), |i: int| ItemModel::Text(front[i])));
        assert(front.push(v.last()) =~= v);
    }
}

proof fn lemma_keys_differ()
    ensures
        "name"@ != "store"@ && "name"@ != "select"@ && "name"@ != "retaining"@ && "name"@
            != "command"@ && "name"@ != "created"@ && "name"@ != "follow_from"@ && "name"@
            != "look_in"@,
        "select"@ != "store"@ && "select"@ != "retaining"@ && "select"@ != "command"@ && "select"@
            != "created"@ && "select"@ != "follow_from"@ && "select"@ != "look_in"@,
        "retaining"@ != "command"@ && "retaining"@ != "created"@ && "retaining"@ != "follow_from"@
            && "retaining"@ != "look_in"@,
        "command"@ != "created"@ && "command"@ != "follow_from"@ && "command"@ != "look_in"@,
        "created"@ != "follow_from"@ && "created"@ != "look_in"@,
        "follow_from"@ != "look_in"@,
{
    reveal_strlit("name");
    reveal_strlit("store");
    reveal_strlit("select");
    reveal_strlit("retaining");
    reveal_strlit("command");
    reveal_strlit("created");
    reveal_strlit("follow_from");
    reveal_strlit("look_in");
    assert("name"@.len() == 4 && "store"@.len() == 5 && "select"@.len() == 6);
    assert("retaining"@.len() == 9 && "follow_from"@.len() == 11);
    assert("command"@.len() == 7 && "created"@.len() == 7 && "look_in"@.len() == 7);
    assert("command"@[1] != "created"@[1]);
    assert("command"@[0] != "look_in"@[0]);
    assert("created"@[0] != "look_in"@[0]);
}

/// A declaration that is written reads back as it was, with every key that is
/// not known here.
pub proof fn a_declaration_round_trips(d: DeclarationModel, file: Seq<char>)
    requires
        trim(d.select).len() > 0,
        d.command.len() > 0,
        forall|k: Seq<char>| #[trigger] d.extra.contains_key(k) ==> !declaration_key(k),
    ensures
        selection(declared_fields(d), file, d.name) == Ok::<Seq<char>, DeclarationProblem>(
            d.select,
        ),
        declaration(declared_fields(d), file, d.name, d.select) == Ok::<
            DeclarationModel,
            DeclarationProblem,
        >(d),
        forall|k: Seq<char>| #[trigger]
            d.extra.contains_key(k) ==> declared_fields(d).contains_key(k) && declared_fields(d)[k]
                == d.extra[k],
{
    let m = declared_fields(d);
    lemma_keys_differ();
    lemma_all_texts_of("command"@, d.command);
    lemma_all_texts_of("look_in"@, d.look_in);
    assert(m["command"@] == text_list(d.command));
    assert(!d.extra.contains_key("follow_from"@));
    assert(!d.extra.contains_key("look_in"@));
    assert(d.look_in.len() == 0 ==> d.look_in =~= Seq::empty());
    assert(unknown_fields(m) =~= d.extra);
}

/// A declaration in a directory of another name is never read.
pub proof fn a_copied_directory_is_refused(
    d: DeclarationModel,
    file: Seq<char>,
    directory: Seq<char>,
)
    requires
        d.name != directory,
    ensures
        selection(declared_fields(d), file, directory) == Err::<Seq<char>, DeclarationProblem>(
            DeclarationProblem::Copied { file, declared: d.name, name: directory },
        ),
{
    lemma_keys_differ();
}

/// Adding places to look removes none: every forest is still swept, and so is
/// every place.
pub proof fn a_place_to_look_is_swept_beside_the_forests(
    dirs: Seq<Seq<char>>,
    look_in: Seq<Seq<char>>,
)
    ensures
        swept(dirs, look_in).len() >= dirs.len(),
        swept(dirs, look_in).take(dirs.len() as int) == dirs,
        forall|i: int|
            0 <= i < look_in.len() ==> exists|j: int|
                0 <= j < swept(dirs, look_in).len() && same_path(
                    #[trigger] swept(dirs, look_in)[j],
                    #[trigger] look_in[i],
                ),
        look_in.len() == 0 ==> swept(dirs, look_in) == dirs,
    decreases look_in.len(),
{
    let all = swept(dirs, look_in);
    if look_in.len() == 0 {
        assert(dirs.take(dirs.len() as int) =~= dirs);
    } else {
        let front = swept(dirs, look_in.drop_last());
        a_place_to_look_is_swept_beside_the_forests(dirs, look_in.drop_last());
        assert(all.take(dirs.len() as int) =~= front.take(dirs.len() as int));
        assert forall|i: int| 0 <= i < look_in.len() implies exists|j: int|
            0 <= j < all.len() && same_path(#[trigger] all[j], #[trigger] look_in[i]) by {
            if i < look_in.len() - 1 {
                let j = choose|j: int|
                    0 <= j < front.len() && same_path(
                        #[trigger] front[j],
                        look_in.drop_last()[i],
                    );
                assert(all[j] == front[j]);
            } else if all.len() > front.len() {
                assert(same_path(all[front.len() as int], look_in[i]));
            } else {
                let j = choose|j: int|
                    0 <= j < front.len() && same_path(#[trigger] front[j], look_in.last());
                assert(same_path(all[j], look_in[i]));
            }
        }
    }
}

} // verus!
