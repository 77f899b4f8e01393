//! Forests: directories searched for stores by a short handle, so that a store
//! can be named without spelling out its path. Full paths keep working
//! unchanged: a forest is consulted only for a bare token that is not already
//! a store on disk.
//!
//! A forest is declared in a file of its own, `KEY=VALUE`, of which one key is
//! read, `DIR`; blank lines, comments and unknown keys are ignored.

use crate::measure::{lower, lowered};
use crate::order::in_order;
use crate::paths::{path_key, path_key_of};
use crate::text::{
    chars_of, has_char, join, joined, same, starts_with, strip_suffix, text, text_of, texts,
    without_prefix, without_suffix,
};
use vstd::prelude::*;
use vstd::string::{StrSliceExecFns, StringExecFns};

verus! {

/// A configured forest: a directory searched for stores, plus the name it was
/// configured under.
#[derive(Debug, Clone, PartialEq, Eq)]
pub struct Forest {
    pub name: String,
    pub dir: String,
}

/// What a forest is.
pub struct ForestModel {
    pub name: Seq<char>,
    pub dir: Seq<char>,
}

impl View for Forest {
    type V = ForestModel;

    open spec fn view(&self) -> ForestModel {
        ForestModel { name: self.name@, dir: self.dir@ }
    }
}

pub open spec fn forest_models(v: Seq<Forest>) -> Seq<ForestModel> {
    Seq::new(v.len(), |i: int| v[i]@)
}

// ------------------------------------------------------------------ handles

/// A logical name without the `.log` at its end.
pub open spec fn logical_handle(name: Seq<char>) -> Seq<char> {
    match strip_suffix(name, ".log"@) {
        Some(s) => s,
        None => name,
    }
}

/// The handle that an index file's store is reachable by: nothing where the
/// name is no index file's.
pub open spec fn rings_handle(file: Seq<char>) -> Option<Seq<char>> {
    match strip_suffix(file, ".rings"@) {
        Some(stem) => Some(logical_handle(stem)),
        None => None,
    }
}

/// The handle of a store known by its logical name (`nginx.log`), with a
/// single `.log` stripped.
pub fn handle_of_logical(name: &str) -> (r: &str)
    ensures
        r@ == logical_handle(name@),
{
    let cs = chars_of(name);
    match without_suffix(cs.as_slice(), ".log") {
        Some(s) => {
            let r = name.substring_char(0, s.len());
            assert(r@ =~= logical_handle(name@));
            r
        },
        None => name,
    }
}

/// The handle a store's `.rings` file is reachable by: the file name minus
/// `.rings`, minus a single trailing `.log`. Layout-independent.
///
/// ```text
/// nginx.log.rings      -> nginx
/// nginx.rings          -> nginx
/// metrics.jsonl.rings  -> metrics.jsonl   (only .log is stripped)
/// nginx.log.log.rings  -> nginx.log       (a single strip)
/// ```
pub fn handle_of(rings_file_name: &str) -> (r: Option<&str>)
    ensures
        match r {
            Some(h) => rings_handle(rings_file_name@) == Some(h@),
            None => rings_handle(rings_file_name@) is None,
        },
{
    match logical_of(rings_file_name) {
        Some(stem) => Some(handle_of_logical(stem)),
        None => None,
    }
}

/// The logical name of an index file: its name without `.rings`.
pub fn logical_of(rings_file_name: &str) -> (r: Option<&str>)
    ensures
        match r {
            Some(s) => strip_suffix(rings_file_name@, ".rings"@) == Some(s@),
            None => strip_suffix(rings_file_name@, ".rings"@) is None,
        },
{
    let cs = chars_of(rings_file_name);
    match without_suffix(cs.as_slice(), ".rings") {
        Some(s) => {
            let n: usize = s.len();
            let r = rings_file_name.substring_char(0, n);
            assert(r@ =~= s@) by {
                let whole = rings_file_name@;
                assert(s@ == whole.take(whole.len() - ".rings"@.len()));
            }
            Some(r)
        },
        None => None,
    }
}

/// Whether an argument is a bare handle token: it holds no path separator.
pub open spec fn is_bare(arg: Seq<char>) -> bool {
    !arg.contains('/')
}

/// A bare handle token: the whole argument, iff it contains no path separator.
pub fn bare_token(arg: &str) -> (r: Option<&str>)
    ensures
        match r {
            Some(s) => is_bare(arg@) && s@ == arg@,
            None => !is_bare(arg@),
        },
{
    let cs = chars_of(arg);
    if has_char(cs.as_slice(), '/') {
        None
    } else {
        Some(arg)
    }
}

// ---------------------------------------------------------------- resolving

/// A store found in a forest.
#[derive(Debug, Clone, PartialEq, Eq)]
pub struct Scanned {
    /// The name of the forest.
    pub forest: String,
    pub handle: String,
    pub path: String,
    /// The name that its manifest declares.
    pub declared: Option<String>,
    /// The identity that its manifest declares.
    pub id: Option<String>,
}

/// Why a source cannot be resolved.
#[derive(Debug, Clone, PartialEq, Eq)]
pub enum ForestError {
    /// The token, and a line for each store that it matches.
    AmbiguousHandle { token: String, candidates: Vec<String> },
    AmbiguousName { token: String, candidates: Vec<String> },
    AmbiguousId { token: String, candidates: Vec<String> },
    /// Where forests are declared, and none is.
    NoForests { conf: String },
    NoStore { token: String, searched: Vec<String> },
}

/// What a forest error is.
pub enum ForestProblem {
    AmbiguousHandle { token: Seq<char>, candidates: Seq<Seq<char>> },
    AmbiguousName { token: Seq<char>, candidates: Seq<Seq<char>> },
    AmbiguousId { token: Seq<char>, candidates: Seq<Seq<char>> },
    NoForests { conf: Seq<char> },
    NoStore { token: Seq<char>, searched: Seq<Seq<char>> },
}

impl View for ForestError {
    type V = ForestProblem;

    open spec fn view(&self) -> ForestProblem {
        match *self {
            ForestError::AmbiguousHandle { token, candidates } => ForestProblem::AmbiguousHandle {
                token: token@,
                candidates: texts(candidates@),
            },
            ForestError::AmbiguousName { token, candidates } => ForestProblem::AmbiguousName {
                token: token@,
                candidates: texts(candidates@),
            },
            ForestError::AmbiguousId { token, candidates } => ForestProblem::AmbiguousId {
                token: token@,
                candidates: texts(candidates@),
            },
            ForestError::NoForests { conf } => ForestProblem::NoForests { conf: conf@ },
            ForestError::NoStore { token, searched } => ForestProblem::NoStore {
                token: token@,
                searched: texts(searched@),
            },
        }
    }
}

impl ForestError {
    /// What the error says.
    pub open spec fn said(self) -> Seq<char> {
        match self {
            ForestError::AmbiguousHandle { token, candidates } => "handle `"@ + token@
                + "` is ambiguous — it matches several stores:\n"@ + joined(
                texts(candidates@),
                "\n"@,
            ) + "\npass a full path or an id to pick one"@,
            ForestError::AmbiguousName { token, candidates } => "several stores are called `"@
                + token@ + "` — a declared name is not unique:\n"@ + joined(
                texts(candidates@),
                "\n"@,
            ) + "\npick one by its id"@,
            ForestError::AmbiguousId { token, candidates } => "id `"@ + token@
                + "` is ambiguous — it is a prefix of several stores:\n"@ + joined(
                texts(candidates@),
                "\n"@,
            ) + "\nuse more of the id"@,
            ForestError::NoForests { conf } => "no forests configured (see "@ + conf@
                + "/); pass a full path"@,
            ForestError::NoStore { token, searched } => "no store `"@ + token@
                + "` in any forest (searched: "@ + joined(texts(searched@), ", "@)
                + "); pass a handle, an id, or a full path"@,
        }
    }

    /// What the error says.
    pub fn message(&self) -> (r: String)
        ensures
            r@ == self.said(),
    {
        match self {
            ForestError::AmbiguousHandle { token, candidates } => text("handle `").concat(
                token.as_str(),
            ).concat("` is ambiguous — it matches several stores:\n").concat(
                join(candidates, "\n").as_str(),
            ).concat("\npass a full path or an id to pick one"),
            ForestError::AmbiguousName { token, candidates } => text(
                "several stores are called `",
            ).concat(token.as_str()).concat("` — a declared name is not unique:\n").concat(
                join(candidates, "\n").as_str(),
            ).concat("\npick one by its id"),
            ForestError::AmbiguousId { token, candidates } => text("id `").concat(
                token.as_str(),
            ).concat("` is ambiguous — it is a prefix of several stores:\n").concat(
                join(candidates, "\n").as_str(),
            ).concat("\nuse more of the id"),
            ForestError::NoForests { conf } => text("no forests configured (see ").concat(
                conf.as_str(),
            ).concat("/); pass a full path"),
            ForestError::NoStore { token, searched } => text("no store `").concat(
                token.as_str(),
            ).concat("` in any forest (searched: ").concat(join(searched, ", ").as_str()).concat(
                "); pass a handle, an id, or a full path",
            ),
        }
    }
}

/// What a token is looked up as.
#[derive(Debug, Clone, Copy, PartialEq, Eq, Structural)]
pub enum By {
    Handle,
    Name,
    Id,
}

pub open spec fn opt_view(o: Option<String>) -> Option<Seq<char>> {
    match o {
        Some(s) => Some(s@),
        None => None,
    }
}

/// Whether a store answers to a token.
pub open spec fn answers(s: Scanned, by: By, token: Seq<char>) -> bool {
    match by {
        By::Handle => s.handle@ == token,
        By::Name => opt_view(s.declared) == Some(token),
        By::Id => s.id is Some && starts_with(s.id->Some_0@, lower(token)),
    }
}

/// The line that names a store among several.
pub open spec fn candidate(s: Scanned, by: By) -> Seq<char> {
    match by {
        By::Handle => "  "@ + s.forest@ + ": "@ + s.path@,
        By::Name => "  "@ + (match s.id {
            Some(id) => id@,
            None => "no identity"@,
        }) + "  "@ + s.path@ + " ("@ + s.forest@ + ")"@,
        By::Id => "  "@ + (match s.id {
            Some(id) => id@,
            None => "no identity"@,
        }) + "  "@ + s.handle@ + " ("@ + s.forest@ + ")"@,
    }
}

/// Which of the first `n` stores answer to a token.
pub open spec fn hits(stores: Seq<Scanned>, by: By, token: Seq<char>, n: int) -> Seq<int>
    decreases n,
{
    if n <= 0 {
        Seq::empty()
    } else if answers(stores[n - 1], by, token) {
        hits(stores, by, token, n - 1).push(n - 1)
    } else {
        hits(stores, by, token, n - 1)
    }
}

pub open spec fn candidates(stores: Seq<Scanned>, by: By, found: Seq<int>) -> Seq<Seq<char>> {
    Seq::new(found.len(), |i: int| candidate(stores[found[i]], by))
}

/// Whether a token has the shape of an id or the start of one: four
/// hexadecimal characters at least, so that a mistyped handle is reported as a
/// missing store instead of resolving to an unrelated one.
pub open spec fn id_shaped(token: Seq<char>) -> bool {
    token.len() >= 4 && forall|i: int|
        0 <= i < token.len() ==> crate::uuid::hex_value(#[trigger] token[i]) is Some || token[i]
            == '-'
}

pub open spec fn dirs_of(forests: Seq<Forest>) -> Seq<Seq<char>> {
    Seq::new(forests.len(), |i: int| forests[i].dir@)
}

pub open spec fn no_store(token: Seq<char>, forests: Seq<Forest>, conf: Seq<char>) -> ForestProblem {
    if forests.len() == 0 {
        ForestProblem::NoForests { conf }
    } else {
        ForestProblem::NoStore { token, searched: dirs_of(forests) }
    }
}

/// What a handle resolves to: the one store that is reachable by it; failing
/// any, the one that declares it as its name; failing any, the one whose id
/// starts with it. Several of a kind name none of them.
pub open spec fn looked_up(
    token: Seq<char>,
    stores: Seq<Scanned>,
    forests: Seq<Forest>,
    conf: Seq<char>,
) -> Result<Seq<char>, ForestProblem> {
    let n = stores.len() as int;
    let by_handle = hits(stores, By::Handle, token, n);
    let by_name = hits(stores, By::Name, token, n);
    let by_id = hits(stores, By::Id, token, n);
    if by_handle.len() == 1 {
        Ok(stores[by_handle[0]].path@)
    } else if by_handle.len() > 1 {
        Err(
            ForestProblem::AmbiguousHandle {
                token,
                candidates: candidates(stores, By::Handle, by_handle),
            },
        )
    } else if by_name.len() == 1 {
        Ok(stores[by_name[0]].path@)
    } else if by_name.len() > 1 {
        Err(
            ForestProblem::AmbiguousName {
                token,
                candidates: candidates(stores, By::Name, by_name),
            },
        )
    } else if !id_shaped(token) || by_id.len() == 0 {
        Err(no_store(token, forests, conf))
    } else if by_id.len() == 1 {
        Ok(stores[by_id[0]].path@)
    } else {
        Err(
            ForestProblem::AmbiguousId { token, candidates: candidates(stores, By::Id, by_id) },
        )
    }
}

fn store_answers(s: &Scanned, by: By, token: &str) -> (r: bool)
    ensures
        r == answers(*s, by, token@),
{
    match by {
        By::Handle => same(s.handle.as_str(), token),
        By::Name => match &s.declared {
            Some(d) => same(d.as_str(), token),
            None => false,
        },
        By::Id => match &s.id {
            Some(id) => {
                let t = chars_of(token);
                let want = text_of(lowered(t.as_slice()).as_slice());
                let cs = chars_of(id.as_str());
                without_prefix(cs.as_slice(), want.as_str()).is_some()
            },
            None => false,
        },
    }
}

fn find_hits(stores: &[Scanned], by: By, token: &str) -> (r: Vec<usize>)
    ensures
        Seq::new(r@.len(), |i: int| r@[i] as int) == hits(
            stores@,
            by,
            token@,
            stores@.len() as int,
        ),
        forall|i: int| 0 <= i < r@.len() ==> (#[trigger] r@[i]) < stores@.len(),
{
    let mut r: Vec<usize> = Vec::new();
    let mut i: usize = 0;
    assert(Seq::new(r@.len(), |i: int| r@[i] as int) =~= hits(stores@, by, token@, 0));
    while i < stores.len()
        invariant
            i <= stores@.len(),
            Seq::new(r@.len(), |i: int| r@[i] as int) == hits(stores@, by, token@, i as int),
            forall|j: int| 0 <= j < r@.len() ==> (#[trigger] r@[j]) < stores@.len(),
        decreases stores@.len() - i,
    {
        if store_answers(&stores[i], by, token) {
            let ghost was = Seq::new(r@.len(), |i: int| r@[i] as int);
            r.push(i);
            assert(Seq::new(r@.len(), |i: int| r@[i] as int) =~= was.push(i as int));
        }
        i = i + 1;
    }
    r
}

fn candidate_text(s: &Scanned, by: By) -> (r: String)
    ensures
        r@ == candidate(*s, by),
{
    let id = match &s.id {
        Some(id) => text(id.as_str()),
        None => text("no identity"),
    };
    match by {
        By::Handle => text("  ").concat(s.forest.as_str()).concat(": ").concat(s.path.as_str()),
        By::Name => text("  ").concat(id.as_str()).concat("  ").concat(s.path.as_str()).concat(
            " (",
        ).concat(s.forest.as_str()).concat(")"),
        By::Id => text("  ").concat(id.as_str()).concat("  ").concat(s.handle.as_str()).concat(
            " (",
        ).concat(s.forest.as_str()).concat(")"),
    }
}

fn candidate_texts(stores: &[Scanned], by: By, found: &Vec<usize>) -> (r: Vec<String>)
    requires
        forall|i: int| 0 <= i < found@.len() ==> (#[trigger] found@[i]) < stores@.len(),
    ensures
        texts(r@) == candidates(stores@, by, Seq::new(found@.len(), |i: int| found@[i] as int)),
{
    let mut r: Vec<String> = Vec::new();
    let mut i: usize = 0;
    while i < found.len()
        invariant
            i <= found@.len(),
            forall|i: int| 0 <= i < found@.len() ==> (#[trigger] found@[i]) < stores@.len(),
            r@.len() == i,
            forall|j: int|
                0 <= j < i ==> #[trigger] r@[j]@ == candidate(stores@[found@[j] as int], by),
        decreases found@.len() - i,
    {
        r.push(candidate_text(&stores[found[i]], by));
        i = i + 1;
    }
    assert(texts(r@) =~= candidates(
        stores@,
        by,
        Seq::new(found@.len(), |i: int| found@[i] as int),
    ));
    r
}

fn shaped_like_id(token: &str) -> (r: bool)
    ensures
        r == id_shaped(token@),
{
    let cs = chars_of(token);
    if cs.len() < 4 {
        return false;
    }
    let mut i: usize = 0;
    while i < cs.len()
        invariant
            i <= cs@.len(),
            cs@ == token@,
            forall|j: int|
                0 <= j < i ==> crate::uuid::hex_value(#[trigger] cs@[j]) is Some || cs@[j] == '-',
        decreases cs@.len() - i,
    {
        let c: char = cs[i];
        let hex: bool = ('0' <= c && c <= '9') || ('a' <= c && c <= 'f') || ('A' <= c && c <= 'F');
        if !hex && c != '-' {
            assert(crate::uuid::hex_value(cs@[i as int]) is None);
            return false;
        }
        i = i + 1;
    }
    true
}

fn no_such_store(token: &str, forests: &[Forest], conf: &str) -> (r: ForestError)
    ensures
        r@ == no_store(token@, forests@, conf@),
{
    if forests.len() == 0 {
        return ForestError::NoForests { conf: text(conf) };
    }
    let mut searched: Vec<String> = Vec::new();
    let mut i: usize = 0;
    while i < forests.len()
        invariant
            i <= forests@.len(),
            searched@.len() == i,
            forall|j: int| 0 <= j < i ==> #[trigger] searched@[j]@ == forests@[j].dir@,
        decreases forests@.len() - i,
    {
        searched.push(text(forests[i].dir.as_str()));
        i = i + 1;
    }
    assert(texts(searched@) =~= dirs_of(forests@));
    ForestError::NoStore { token: text(token), searched }
}

/// What a handle resolves to, among the stores found in the forests. `conf` is
/// where forests are declared.
pub fn lookup_handle(token: &str, stores: &[Scanned], forests: &[Forest], conf: &str) -> (r: Result<
    String,
    ForestError,
>)
    ensures
        match r {
            Ok(path) => looked_up(token@, stores@, forests@, conf@) == Ok::<
                Seq<char>,
                ForestProblem,
            >(path@),
            Err(e) => looked_up(token@, stores@, forests@, conf@) == Err::<
                Seq<char>,
                ForestProblem,
            >(e@),
        },
{
    let found = find_hits(stores, By::Handle, token);
    let ghost f = Seq::new(found@.len(), |i: int| found@[i] as int);
    assert(f.len() == found@.len());
    if found.len() == 1 {
        assert(f[0] == found@[0] as int);
        return Ok(text(stores[found[0]].path.as_str()));
    }
    if found.len() > 1 {
        return Err(
            ForestError::AmbiguousHandle {
                token: text(token),
                candidates: candidate_texts(stores, By::Handle, &found),
            },
        );
    }
    let named = find_hits(stores, By::Name, token);
    let ghost f = Seq::new(named@.len(), |i: int| named@[i] as int);
    assert(f.len() == named@.len());
    if named.len() == 1 {
        assert(f[0] == named@[0] as int);
        return Ok(text(stores[named[0]].path.as_str()));
    }
    if named.len() > 1 {
        return Err(
            ForestError::AmbiguousName {
                token: text(token),
                candidates: candidate_texts(stores, By::Name, &named),
            },
        );
    }
    if !shaped_like_id(token) {
        return Err(no_such_store(token, forests, conf));
    }
    let ids = find_hits(stores, By::Id, token);
    let ghost f = Seq::new(ids@.len(), |i: int| ids@[i] as int);
    assert(f.len() == ids@.len());
    if ids.len() == 0 {
        return Err(no_such_store(token, forests, conf));
    }
    if ids.len() == 1 {
        assert(f[0] == ids@[0] as int);
        return Ok(text(stores[ids[0]].path.as_str()));
    }
    Err(
        ForestError::AmbiguousId {
            token: text(token),
            candidates: candidate_texts(stores, By::Id, &ids),
        },
    )
}

/// Resolve a user-supplied source argument to a store path. A path that names
/// a store or a bundle (`known`), and anything with a separator, is returned
/// unchanged; only a bare token is looked up as a handle.
pub fn resolve_source(
    arg: &str,
    known: bool,
    stores: &[Scanned],
    forests: &[Forest],
    conf: &str,
) -> (r: Result<String, ForestError>)
    ensures
        known || !is_bare(arg@) ==> r is Ok && r->Ok_0@ == arg@,
        !known && is_bare(arg@) ==> match r {
            Ok(path) => looked_up(arg@, stores@, forests@, conf@) == Ok::<
                Seq<char>,
                ForestProblem,
            >(path@),
            Err(e) => looked_up(arg@, stores@, forests@, conf@) == Err::<
                Seq<char>,
                ForestProblem,
            >(e@),
        },
{
    if known {
        return Ok(text(arg));
    }
    match bare_token(arg) {
        None => Ok(text(arg)),
        Some(token) => lookup_handle(token, stores, forests, conf),
    }
}

proof fn lemma_hits(stores: Seq<Scanned>, by: By, token: Seq<char>, n: int)
    requires
        0 <= n <= stores.len(),
    ensures
        forall|i: int| 0 <= i < n ==> (#[trigger] answers(stores[i], by, token) <==> hits(
            stores,
            by,
            token,
            n,
        ).contains(i)),
        forall|j: int|
            0 <= j < hits(stores, by, token, n).len() ==> 0 <= #[trigger] hits(
                stores,
                by,
                token,
                n,
            )[j] < n,
    decreases n,
{
    if n > 0 {
        lemma_hits(stores, by, token, n - 1);
        let done = hits(stores, by, token, n - 1);
        let all = hits(stores, by, token, n);
        assert forall|i: int| 0 <= i < n implies (#[trigger] answers(stores[i], by, token)
            <==> all.contains(i)) by {
            if answers(stores[n - 1], by, token) {
                assert(all == done.push(n - 1));
                if i < n - 1 {
                    if done.contains(i) {
                        let j = choose|j: int| 0 <= j < done.len() && done[j] == i;
                        assert(all[j] == i);
                    }
                    if all.contains(i) {
                        let j = choose|j: int| 0 <= j < all.len() && all[j] == i;
                        assert(done[j] == i);
                    }
                } else {
                    assert(all[done.len() as int] == i);
                }
            } else if i == n - 1 {
                if all.contains(i) {
                    let j = choose|j: int| 0 <= j < done.len() && done[j] == i;
                    assert(done[j] < n - 1);
                }
            }
        }
    }
}

/// A handle that two stores answer to is never resolved: the resolver refuses
/// rather than guesses.
pub proof fn an_ambiguous_handle_is_refused(
    token: Seq<char>,
    stores: Seq<Scanned>,
    forests: Seq<Forest>,
    conf: Seq<char>,
    i: int,
    j: int,
)
    requires
        0 <= i < j < stores.len(),
        answers(stores[i], By::Handle, token),
        answers(stores[j], By::Handle, token),
    ensures
        looked_up(token, stores, forests, conf) is Err,
{
    let n = stores.len() as int;
    let h = hits(stores, By::Handle, token, n);
    lemma_hits(stores, By::Handle, token, n);
    assert(h.contains(i) && h.contains(j));
    let a = choose|a: int| 0 <= a < h.len() && h[a] == i;
    let b = choose|b: int| 0 <= b < h.len() && h[b] == j;
    assert(a != b);
}

/// A handle outranks a name and an id: where exactly one store is reachable by
/// the token, that is the store, whatever any other declares.
pub proof fn a_handle_is_never_shadowed(
    token: Seq<char>,
    stores: Seq<Scanned>,
    forests: Seq<Forest>,
    conf: Seq<char>,
    i: int,
)
    requires
        0 <= i < stores.len(),
        answers(stores[i], By::Handle, token),
        forall|j: int|
            0 <= j < stores.len() && j != i ==> !(#[trigger] answers(stores[j], By::Handle, token)),
    ensures
        looked_up(token, stores, forests, conf) == Ok::<Seq<char>, ForestProblem>(stores[i].path@),
{
    let n = stores.len() as int;
    lemma_single(stores, token, n, i);
}

proof fn lemma_single(stores: Seq<Scanned>, token: Seq<char>, n: int, i: int)
    requires
        0 <= i < stores.len(),
        0 <= n <= stores.len(),
        answers(stores[i], By::Handle, token),
        forall|j: int|
            0 <= j < stores.len() && j != i ==> !(#[trigger] answers(stores[j], By::Handle, token)),
    ensures
        hits(stores, By::Handle, token, n) == (if n > i {
            seq![i]
        } else {
            Seq::empty()
        }),
    decreases n,
{
    if n > 0 {
        lemma_single(stores, token, n - 1, i);
        if n - 1 == i {
            assert(Seq::<int>::empty().push(i) =~= seq![i]);
        } else {
            assert(!answers(stores[n - 1], By::Handle, token));
        }
    }
}

// ------------------------------------------------------------------ anchors

/// A store found in a forest, and what a cursor for it anchors to.
#[derive(Debug, Clone, PartialEq, Eq)]
pub struct Anchored {
    pub path: String,
    pub anchor: String,
}

/// The first of the stores that anchors so and stands at the same path; how
/// many there are where none does.
pub open spec fn first_anchored(stores: Seq<Anchored>, anchor: Seq<char>, key: Seq<char>) -> int
    decreases stores.len(),
{
    if stores.len() == 0 || (stores[0].anchor@ == anchor && path_key(stores[0].path@) == key) {
        0
    } else {
        1 + first_anchored(stores.drop_first(), anchor, key)
    }
}

/// The order of the paths of the stores among the first `n` that anchor so,
/// each once.
pub open spec fn anchored_keys(stores: Seq<Anchored>, anchor: Seq<char>, n: int) -> Seq<Seq<char>>
    decreases n,
{
    if n <= 0 {
        Seq::empty()
    } else if stores[n - 1].anchor@ == anchor {
        anchored_keys(stores, anchor, n - 1).push(path_key(stores[n - 1].path@))
    } else {
        anchored_keys(stores, anchor, n - 1)
    }
}

pub proof fn lemma_first_anchored(stores: Seq<Anchored>, anchor: Seq<char>, key: Seq<char>, n: int)
    requires
        0 <= n <= stores.len(),
        anchored_keys(stores, anchor, n).contains(key),
    ensures
        0 <= first_anchored(stores, anchor, key) < n,
        stores[first_anchored(stores, anchor, key)].anchor@ == anchor,
        path_key(stores[first_anchored(stores, anchor, key)].path@) == key,
{
    lemma_keys_from(stores, anchor, key, n);
    let j = choose|j: int|
        0 <= j < n && (#[trigger] stores[j]).anchor@ == anchor && path_key(stores[j].path@) == key;
    lemma_first_anchored_at(stores, anchor, key, j);
}

pub proof fn lemma_keys_from(stores: Seq<Anchored>, anchor: Seq<char>, key: Seq<char>, n: int)
    requires
        0 <= n <= stores.len(),
        anchored_keys(stores, anchor, n).contains(key),
    ensures
        exists|j: int|
            0 <= j < n && (#[trigger] stores[j]).anchor@ == anchor && path_key(stores[j].path@)
                == key,
    decreases n,
{
    if n > 0 {
        let done = anchored_keys(stores, anchor, n - 1);
        let all = anchored_keys(stores, anchor, n);
        if stores[n - 1].anchor@ == anchor && path_key(stores[n - 1].path@) == key {
        } else {
            let i = choose|i: int| 0 <= i < all.len() && all[i] == key;
            assert(done[i] == key) by {
                if stores[n - 1].anchor@ == anchor {
                    assert(all == done.push(path_key(stores[n - 1].path@)));
                }
            }
            assert(done.contains(key));
            lemma_keys_from(stores, anchor, key, n - 1);
        }
    }
}

proof fn lemma_first_anchored_at(stores: Seq<Anchored>, anchor: Seq<char>, key: Seq<char>, j: int)
    requires
        0 <= j < stores.len(),
        stores[j].anchor@ == anchor,
        path_key(stores[j].path@) == key,
    ensures
        0 <= first_anchored(stores, anchor, key) <= j,
        stores[first_anchored(stores, anchor, key)].anchor@ == anchor,
        path_key(stores[first_anchored(stores, anchor, key)].path@) == key,
    decreases j,
{
    if stores[0].anchor@ == anchor && path_key(stores[0].path@) == key {
    } else {
        let t = stores.drop_first();
        assert(t[j - 1] == stores[j]);
        lemma_first_anchored_at(t, anchor, key, j - 1);
    }
}

/// The paths in an order of keys: for each key the first store that has it.
pub open spec fn paths_for(stores: Seq<Anchored>, anchor: Seq<char>, keys: Seq<Seq<char>>) -> Seq<
    Seq<char>,
> {
    Seq::new(keys.len(), |i: int| stores[first_anchored(stores, anchor, keys[i])].path@)
}

/// Every store that the anchor identifies, in the order of their paths, each
/// path once. Several are possible only from a copied manifest, which is a
/// mistake worth naming: all of them come back and the caller refuses.
pub fn stores_by_anchor(anchor: &str, stores: &[Anchored]) -> (r: Vec<String>)
    ensures
        exists|keys: Seq<Seq<char>>|
            #[trigger] crate::order::is_order_of(
                keys,
                anchored_keys(stores@, anchor@, stores@.len() as int),
            ) && texts(r@) == paths_for(stores@, anchor@, keys),
{
    let mut all: Vec<String> = Vec::new();
    let mut i: usize = 0;
    assert(texts(all@) =~= anchored_keys(stores@, anchor@, 0));
    while i < stores.len()
        invariant
            i <= stores@.len(),
            texts(all@) == anchored_keys(stores@, anchor@, i as int),
        decreases stores@.len() - i,
    {
        if same(stores[i].anchor.as_str(), anchor) {
            let key = path_key_of(stores[i].path.as_str());
            assert(texts(all@.push(key)) =~= texts(all@).push(key@));
            all.push(key);
        }
        i = i + 1;
    }
    let keys = in_order(&all);
    let ghost names = texts(keys@);
    let ghost given = texts(all@);
    let mut r: Vec<String> = Vec::new();
    let mut k: usize = 0;
    while k < keys.len()
        invariant
            k <= keys@.len(),
            names == texts(keys@),
            given == anchored_keys(stores@, anchor@, stores@.len() as int),
            crate::order::is_order_of(names, given),
            r@.len() == k,
            forall|j: int|
                0 <= j < k ==> #[trigger] r@[j]@ == paths_for(stores@, anchor@, names)[j],
        decreases keys@.len() - k,
    {
        let key: &str = keys[k].as_str();
        proof {
            assert(names[k as int] == key@);
            assert(names.contains(key@));
            lemma_first_anchored(stores@, anchor@, key@, stores@.len() as int);
        }
        let at: usize = find_anchored(stores, anchor, key);
        r.push(text(stores[at].path.as_str()));
        k = k + 1;
    }
    proof {
        assert(texts(r@) =~= paths_for(stores@, anchor@, names));
        assert(crate::order::is_order_of(names, given));
    }
    r
}

fn find_anchored(stores: &[Anchored], anchor: &str, key: &str) -> (k: usize)
    requires
        first_anchored(stores@, anchor@, key@) < stores@.len(),
    ensures
        k == first_anchored(stores@, anchor@, key@),
        k < stores@.len(),
{
    let mut k: usize = 0;
    assert(stores@.skip(0) =~= stores@);
    while k < stores.len()
        invariant
            k <= stores@.len(),
            first_anchored(stores@, anchor@, key@) < stores@.len(),
            first_anchored(stores@, anchor@, key@) == k + first_anchored(
                stores@.skip(k as int),
                anchor@,
                key@,
            ),
        decreases stores@.len() - k,
    {
        assert(stores@.skip(k as int).drop_first() =~= stores@.skip(k + 1));
        if same(stores[k].anchor.as_str(), anchor) && same(
            path_key_of(stores[k].path.as_str()).as_str(),
            key,
        ) {
            return k;
        }
        k = k + 1;
    }
    assert(false);
    0
}

} // verus!
