//! What a registry looks like: the row, the object and the page of a follower.

use crate::follower::{
    follows, handle_at, holds_whole_store, lag_said, positions_path, uncovered_in,
    uncovered_models, unit_name, unit_of, Covered, CoveredModel, Liveness, Note, NoteModel, Places,
    Registered, Uncovered, UncoveredModel,
};
use crate::forests::{pad_right, padded_right};
use crate::json::{item_models, object_text, Fields, Item, ItemModel, Json, JsonModel};
use crate::paths::join as join_path;
use crate::registration::{nothing_said, say};
use crate::text::{decimal, join, joined, number_text, text, texts};
use vstd::prelude::*;
use vstd::string::StringExecFns;

verus! {

/// The columns of a listing.
pub fn columns() -> (r: Vec<String>)
    ensures
        texts(r@) == seq!["NAME"@, "FOLLOWS"@, "STORES"@, "RETAINING"@, "LAG"@, "RUNNING"@],
{
    let mut v = nothing_said();
    say(&mut v, text("NAME"));
    say(&mut v, text("FOLLOWS"));
    say(&mut v, text("STORES"));
    say(&mut v, text("RETAINING"));
    say(&mut v, text("LAG"));
    say(&mut v, text("RUNNING"));
    proof {
        assert(texts(v@) =~= seq![
            "NAME"@,
            "FOLLOWS"@,
            "STORES"@,
            "RETAINING"@,
            "LAG"@,
            "RUNNING"@,
        ]);
    }
    v
}

/// The row of a follower in a listing.
pub open spec fn row(r: Registered, distance: Seq<char>) -> Seq<Seq<char>> {
    seq![
        r.decl.name@,
        follows(r),
        decimal(r.covered@.len()),
        if r.decl.retaining {
            "yes"@
        } else {
            "no"@
        },
        lag_said(r, distance),
        r.live.shown(),
    ]
}

/// The row of a follower in a listing. `distance` is how far behind its worst
/// store is, as it is shown.
pub fn row_cells(r: &Registered, distance: &str) -> (cells: Vec<String>)
    ensures
        texts(cells@) == row(*r, distance@),
{
    let n: usize = r.covered.len();
    let mut v = nothing_said();
    say(&mut v, text(r.name()));
    say(&mut v, r.follows_text());
    say(&mut v, number_text(n as u64));
    say(
        &mut v,
        text(
            if r.decl.retaining {
                "yes"
            } else {
                "no"
            },
        ),
    );
    say(&mut v, r.lag_text(distance));
    say(&mut v, text(r.live.text()));
    proof {
        assert(texts(v@) =~= row(*r, distance@));
    }
    v
}

// --------------------------------------------------------------------- JSON

/// A whole number, or nothing.
pub open spec fn whole_or_null(n: Option<u64>) -> JsonModel {
    match n {
        Some(n) => JsonModel::Whole(n),
        None => JsonModel::Null,
    }
}

fn whole_value(n: Option<u64>) -> (r: Json)
    ensures
        r@ == whole_or_null(n),
{
    match n {
        Some(n) => Json::Whole(n),
        None => Json::Null,
    }
}

/// A consumer's word as an object.
pub open spec fn note_fields(n: NoteModel) -> Map<Seq<char>, JsonModel> {
    Map::empty().insert("text"@, JsonModel::Text(n.text)).insert(
        "offset"@,
        whole_or_null(n.offset),
    ).insert("when"@, JsonModel::Text(n.when))
}

fn note_json(n: &Note) -> (r: Fields)
    ensures
        r@ == note_fields(n@),
{
    let mut o = Fields::new();
    o.insert("text", Json::Text(text(n.text.as_str())));
    o.insert("offset", whole_value(n.offset));
    o.insert("when", Json::Text(text(n.when.as_str())));
    o
}

/// A covered store as an object: the same keys whether or not it was read, so
/// that a reader tests for a value rather than for a key.
pub open spec fn covered_fields(c: CoveredModel) -> Map<Seq<char>, JsonModel> {
    let (consumed, chunks, bytes, ms, gap) = match c.standing {
        None => (
            JsonModel::Null,
            JsonModel::Null,
            JsonModel::Null,
            JsonModel::Null,
            JsonModel::Null,
        ),
        Some(st) => (
            JsonModel::Whole(st.consumed_chunks as u64),
            JsonModel::Whole(st.behind_chunks as u64),
            JsonModel::Whole(st.behind_bytes),
            JsonModel::Whole(st.behind_ms),
            whole_or_null(st.gap_chunks),
        ),
    };
    Map::empty().insert("id"@, JsonModel::Text(c.id)).insert(
        "path"@,
        JsonModel::Text(c.path),
    ).insert("read"@, JsonModel::Bool(c.read)).insert("consumed_chunks"@, consumed).insert(
        "behind_chunks"@,
        chunks,
    ).insert("behind_bytes"@, bytes).insert("behind_ms"@, ms).insert("gap_chunks"@, gap).insert(
        "note"@,
        match c.note {
            None => JsonModel::Null,
            Some(n) => JsonModel::Other(object_text(note_fields(n))),
        },
    )
}

/// A covered store as an object.
pub fn covered_json(c: &Covered) -> (r: Fields)
    ensures
        r@ == covered_fields(c@),
{
    let mut o = Fields::new();
    o.insert("id", Json::Text(text(c.id.as_str())));
    o.insert("path", Json::Text(text(c.path.as_str())));
    o.insert("read", Json::Bool(c.read));
    match &c.standing {
        None => {
            o.insert("consumed_chunks", Json::Null);
            o.insert("behind_chunks", Json::Null);
            o.insert("behind_bytes", Json::Null);
            o.insert("behind_ms", Json::Null);
            o.insert("gap_chunks", Json::Null);
        },
        Some(st) => {
            o.insert("consumed_chunks", Json::Whole(st.consumed_chunks as u64));
            o.insert("behind_chunks", Json::Whole(st.behind_chunks as u64));
            o.insert("behind_bytes", Json::Whole(st.behind_bytes));
            o.insert("behind_ms", Json::Whole(st.behind_ms));
            o.insert("gap_chunks", whole_value(st.gap_chunks));
        },
    }
    o.insert(
        "note",
        match &c.note {
            None => Json::Null,
            Some(n) => Json::Other(note_json(n).compact()),
        },
    );
    o
}

/// A place in a store that is no longer covered, as an object.
pub open spec fn uncovered_fields(u: UncoveredModel) -> Map<Seq<char>, JsonModel> {
    Map::empty().insert("id"@, JsonModel::Text(u.id)).insert(
        "on_disk"@,
        JsonModel::Bool(u.on_disk),
    )
}

/// Objects as members of a list.
pub open spec fn covered_items(v: Seq<Covered>) -> Seq<ItemModel> {
    Seq::new(v.len(), |i: int| ItemModel::Other(object_text(covered_fields(v[i]@))))
}

/// Objects as members of a list.
pub open spec fn uncovered_items(v: Seq<UncoveredModel>) -> Seq<ItemModel> {
    Seq::new(v.len(), |i: int| ItemModel::Other(object_text(uncovered_fields(v[i]))))
}

/// Texts as members of a list.
pub open spec fn text_items(v: Seq<Seq<char>>) -> Seq<ItemModel> {
    Seq::new(v.len(), |i: int| ItemModel::Text(v[i]))
}

/// The recorded places in stores that a follower no longer covers.
pub open spec fn left_behind(r: Registered, on_disk: Seq<Seq<char>>) -> Seq<UncoveredModel> {
    match r.places {
        Places::Held(p) => uncovered_in(p.at@, r.covered@, on_disk),
        _ => Seq::empty(),
    }
}

/// A follower as an object.
pub open spec fn follower_fields(
    r: Registered,
    distance: Seq<char>,
    on_disk: Seq<Seq<char>>,
) -> Map<Seq<char>, JsonModel> {
    Map::empty().insert("name"@, JsonModel::Text(r.decl.name@)).insert(
        "select"@,
        JsonModel::Text(r.decl.select@),
    ).insert("command"@, JsonModel::List(text_items(texts(r.decl.command@)))).insert(
        "retaining"@,
        JsonModel::Bool(r.decl.retaining),
    ).insert("created"@, JsonModel::Text(r.decl.created@)).insert(
        "running"@,
        match r.live {
            Liveness::Running => JsonModel::Bool(true),
            Liveness::Stopped => JsonModel::Bool(false),
            Liveness::Unknown => JsonModel::Null,
        },
    ).insert("unit"@, JsonModel::Text(unit_of(r.decl.name@))).insert(
        "lag"@,
        JsonModel::Text(lag_said(r, distance)),
    ).insert("holds_everything"@, JsonModel::Bool(holds_whole_store(r))).insert(
        "uncovered"@,
        JsonModel::List(uncovered_items(left_behind(r, on_disk))),
    ).insert(
        "positions"@,
        JsonModel::Text(
            match r.places {
                Places::Never => "never"@,
                Places::Unreadable => "unreadable"@,
                Places::Held(_) => "held"@,
            },
        ),
    ).insert("stores"@, JsonModel::List(covered_items(r.covered@)))
}

fn uncovered_json(u: &Uncovered) -> (r: Fields)
    ensures
        r@ == uncovered_fields((UncoveredModel { id: u.id@, on_disk: u.on_disk })),
{
    let mut o = Fields::new();
    o.insert("id", Json::Text(text(u.id.as_str())));
    o.insert("on_disk", Json::Bool(u.on_disk));
    o
}

/// A follower as an object.
pub fn to_json(r: &Registered, distance: &str, on_disk: &Vec<String>) -> (o: Fields)
    ensures
        o@ == follower_fields(*r, distance@, texts(on_disk@)),
{
    let mut command: Vec<Item> = Vec::new();
    let mut i: usize = 0;
    while i < r.decl.command.len()
        invariant
            i <= r.decl.command@.len(),
            command@.len() == i,
            forall|j: int|
                0 <= j < i ==> (#[trigger] command@[j])@ == ItemModel::Text(r.decl.command@[j]@),
        decreases r.decl.command@.len() - i,
    {
        command.push(Item::Text(text(r.decl.command[i].as_str())));
        i = i + 1;
    }
    let mut stores: Vec<Item> = Vec::new();
    let mut k: usize = 0;
    while k < r.covered.len()
        invariant
            k <= r.covered@.len(),
            stores@.len() == k,
            forall|j: int|
                0 <= j < k ==> (#[trigger] stores@[j])@ == ItemModel::Other(
                    object_text(covered_fields(r.covered@[j]@)),
                ),
        decreases r.covered@.len() - k,
    {
        stores.push(Item::Other(covered_json(&r.covered[k]).compact()));
        k = k + 1;
    }
    let left = r.uncovered(on_disk);
    let mut gone: Vec<Item> = Vec::new();
    let mut n: usize = 0;
    while n < left.len()
        invariant
            n <= left@.len(),
            gone@.len() == n,
            forall|j: int|
                0 <= j < n ==> (#[trigger] gone@[j])@ == ItemModel::Other(
                    object_text(uncovered_fields(uncovered_models(left@)[j])),
                ),
        decreases left@.len() - n,
    {
        gone.push(Item::Other(uncovered_json(&left[n]).compact()));
        n = n + 1;
    }
    proof {
        assert(item_models(command@) =~= text_items(texts(r.decl.command@)));
        assert(item_models(stores@) =~= covered_items(r.covered@));
        assert(item_models(gone@) =~= uncovered_items(left_behind(*r, texts(on_disk@))));
    }
    let mut o = Fields::new();
    o.insert("name", Json::Text(text(r.name())));
    o.insert("select", Json::Text(text(r.decl.select.as_str())));
    o.insert("command", Json::List(command));
    o.insert("retaining", Json::Bool(r.decl.retaining));
    o.insert("created", Json::Text(text(r.decl.created.as_str())));
    o.insert(
        "running",
        match r.live {
            Liveness::Running => Json::Bool(true),
            Liveness::Stopped => Json::Bool(false),
            Liveness::Unknown => Json::Null,
        },
    );
    o.insert("unit", Json::Text(unit_name(r.name())));
    o.insert("lag", Json::Text(r.lag_text(distance)));
    o.insert("holds_everything", Json::Bool(r.holds_everything()));
    o.insert("uncovered", Json::List(gone));
    o.insert(
        "positions",
        Json::Text(
            text(
                match &r.places {
                    Places::Never => "never",
                    Places::Unreadable => "unreadable",
                    Places::Held(_) => "held",
                },
            ),
        ),
    );
    o.insert("stores", Json::List(stores));
    o
}

// ------------------------------------------------------------------- status

/// How far behind a store is, and how much of it, as they are shown.
#[derive(Clone, Debug, PartialEq, Eq)]
pub struct Shown {
    pub distance: String,
    pub unread: String,
}

/// What retaining currently means for a follower, which depends on how many of
/// the stores it covers honour it.
pub open spec fn retaining_said(retaining: bool, covered: nat, honouring: nat) -> Seq<char> {
    if !retaining {
        "retaining no — it holds nothing back; retention ignores its positions"@
    } else if honouring == 0 {
        "retaining yes — declared, but no covered store declares retain_unconsumed, so nothing honours it yet"@
    } else if honouring == covered {
        "retaining yes — its positions hold every covered store's head back, until retain_size overrides it"@
    } else {
        "retaining yes — honoured by "@ + decimal(honouring) + " of "@ + decimal(covered)
            + " covered store(s); the rest do not declare retain_unconsumed"@
    }
}

/// What retaining currently means for a follower.
pub fn retaining_line(r: &Registered, honouring: usize) -> (s: String)
    ensures
        s@ == retaining_said(r.decl.retaining, r.covered@.len(), honouring as nat),
{
    let n: usize = r.covered.len();
    if !r.decl.retaining {
        text("retaining no — it holds nothing back; retention ignores its positions")
    } else if honouring == 0 {
        text(
            "retaining yes — declared, but no covered store declares retain_unconsumed, so nothing honours it yet",
        )
    } else if honouring == n {
        text(
            "retaining yes — its positions hold every covered store's head back, until retain_size overrides it",
        )
    } else {
        text("retaining yes — honoured by ").concat(number_text(honouring as u64).as_str()).concat(
            " of ",
        ).concat(number_text(n as u64).as_str()).concat(
            " covered store(s); the rest do not declare retain_unconsumed",
        )
    }
}

/// A line under a store's handle, or under nothing.
pub open spec fn under(handle: Seq<char>, line: Seq<char>) -> Seq<char> {
    "  "@ + padded_right(handle, 24) + " "@ + line
}

fn under_line(handle: &str, line: &str) -> (r: String)
    ensures
        r@ == under(handle@, line@),
{
    text("  ").concat(pad_right(handle, 24).as_str()).concat(" ").concat(line)
}

/// Where a follower stands in one store. A place that is inside the newest
/// chunk has nothing told of what is unread.
pub open spec fn store_lines(c: CoveredModel, distance: Seq<char>, unread: Seq<char>) -> Seq<
    Seq<char>,
> {
    let place = if !c.read {
        "never read"@
    } else {
        match c.standing {
            Some(st) => st.lag(distance),
            None => "store unreadable"@,
        }
    };
    let first = seq![under(handle_at(c.path), place)];
    let second = match c.standing {
        Some(st) => match st.gap_chunks {
            Some(n) => first.push(
                under(
                    ""@,
                    "GAP — "@ + decimal(n as nat)
                        + " chunk(s) were dropped before it read them; it resumes at the oldest one still here"@,
                ),
            ),
            None => if st.behind_chunks > 0 && st.behind_ms != 0 {
                first.push(
                    under(""@, unread + " unread in "@ + decimal(st.behind_chunks as nat)
                        + " chunk(s)"@),
                )
            } else {
                first
            },
        },
        None => first,
    };
    match c.note {
        None => second,
        Some(n) => {
            let third = second.push(under(""@, "note: "@ + n.text));
            match n.offset {
                Some(off) => third.push(
                    under(
                        ""@,
                        "  at offset "@ + decimal(off as nat) + " of "@ + handle_at(c.path),
                    ),
                ),
                None => third,
            }
        },
    }
}

fn lines_of_store(c: &Covered, shown: &Shown) -> (r: Vec<String>)
    ensures
        texts(r@) == store_lines(c@, shown.distance@, shown.unread@),
{
    let handle = c.handle();
    let mut out = nothing_said();
    let place = if !c.read {
        text("never read")
    } else {
        match &c.standing {
            Some(st) => st.lag_text(shown.distance.as_str()),
            None => text("store unreadable"),
        }
    };
    say(&mut out, under_line(handle.as_str(), place.as_str()));
    proof {
        assert(texts(out@) =~= seq![under(handle@, place@)]);
    }
    if let Some(st) = &c.standing {
        if let Some(n) = st.gap_chunks {
            say(
                &mut out,
                under_line(
                    "",
                    text("GAP — ").concat(number_text(n).as_str()).concat(
                        " chunk(s) were dropped before it read them; it resumes at the oldest one still here",
                    ).as_str(),
                ),
            );
        } else if st.behind_chunks > 0 && !st.at_live_edge() {
            say(
                &mut out,
                under_line(
                    "",
                    text(shown.unread.as_str()).concat(" unread in ").concat(
                        number_text(st.behind_chunks as u64).as_str(),
                    ).concat(" chunk(s)").as_str(),
                ),
            );
        }
    }
    if let Some(n) = &c.note {
        say(&mut out, under_line("", text("note: ").concat(n.text.as_str()).as_str()));
        if let Some(off) = n.offset {
            say(
                &mut out,
                under_line(
                    "",
                    text("  at offset ").concat(number_text(off).as_str()).concat(" of ").concat(
                        handle.as_str(),
                    ).as_str(),
                ),
            );
        }
    }
    out
}

/// More lines at the end.
fn say_all(out: &mut Vec<String>, more: &Vec<String>)
    ensures
        texts(final(out)@) == texts(old(out)@) + texts(more@),
{
    let ghost head = texts(out@);
    let ghost tail = texts(more@);
    let mut i: usize = 0;
    proof {
        assert(texts(out@) =~= head + tail.take(0));
    }
    while i < more.len()
        invariant
            i <= more@.len(),
            tail == texts(more@),
            texts(out@) == head + tail.take(i as int),
        decreases more@.len() - i,
    {
        say(out, text(more[i].as_str()));
        i = i + 1;
        proof {
            assert(texts(out@) =~= head + tail.take(i as int));
        }
    }
    proof {
        assert(tail.take(i as int) =~= tail);
    }
}

/// Where a follower stands in each store, in the order of the list.
pub open spec fn stores_said(v: Seq<Covered>, shown: Seq<Shown>) -> Seq<Seq<char>>
    decreases v.len(),
{
    if v.len() == 0 {
        Seq::empty()
    } else {
        let s = shown[v.len() - 1];
        stores_said(v.drop_last(), shown) + store_lines(v.last()@, s.distance@, s.unread@)
    }
}

/// How many of a list of places are of nothing on disk.
pub open spec fn gone_among(v: Seq<UncoveredModel>) -> nat
    decreases v.len(),
{
    if v.len() == 0 {
        0
    } else {
        gone_among(v.drop_last()) + (if v.last().on_disk {
            0nat
        } else {
            1nat
        })
    }
}

/// What is said of the places in stores that are no longer covered: every
/// recorded place is accounted for, not just those that are.
pub open spec fn left_said(v: Seq<UncoveredModel>) -> Seq<Seq<char>> {
    if v.len() == 0 {
        Seq::empty()
    } else {
        seq![
            "places    "@ + decimal(v.len()) + " more, for store(s) this no longer covers"@ + (
            if gone_among(v) > 0 {
                " — "@ + decimal(gone_among(v)) + " of them no longer on disk at all"@
            } else {
                ""@
            }),
            "          each keeps its place, so a store that comes back into the selection resumes rather than re-ships; nothing prunes them"@,
        ]
    }
}

fn left_lines(v: &Vec<Uncovered>) -> (r: Vec<String>)
    ensures
        texts(r@) == left_said(uncovered_models(v@)),
{
    let ghost models = uncovered_models(v@);
    let mut out = nothing_said();
    let n: usize = v.len();
    if n == 0 {
        return out;
    }
    let mut gone: usize = 0;
    let mut i: usize = 0;
    while i < v.len()
        invariant
            i <= v@.len(),
            gone <= i,
            models == uncovered_models(v@),
            gone == gone_among(models.take(i as int)),
        decreases v@.len() - i,
    {
        proof {
            assert(models.take(i + 1).drop_last() =~= models.take(i as int));
        }
        if !v[i].on_disk {
            gone = gone + 1;
        }
        i = i + 1;
    }
    proof {
        assert(models.take(i as int) =~= models);
    }
    let more = if gone > 0 {
        text(" — ").concat(number_text(gone as u64).as_str()).concat(
            " of them no longer on disk at all",
        )
    } else {
        text("")
    };
    say(
        &mut out,
        text("places    ").concat(number_text(n as u64).as_str()).concat(
            " more, for store(s) this no longer covers",
        ).concat(more.as_str()),
    );
    say(
        &mut out,
        text(
            "          each keeps its place, so a store that comes back into the selection resumes rather than re-ships; nothing prunes them",
        ),
    );
    proof {
        assert(texts(out@) =~= left_said(models));
    }
    out
}

/// What the outside says of a follower, for its page.
#[derive(Clone, Debug, PartialEq, Eq)]
pub struct StatusFacts {
    /// How many of the covered stores honour what it retains.
    pub honouring: usize,
    /// How each covered store's distance reads, in their order.
    pub shown: Vec<Shown>,
    /// The identities of the recorded stores that are on disk.
    pub on_disk: Vec<String>,
    /// Who holds its lock, where that is known.
    pub holder: Option<String>,
}

/// Whether it runs, and who holds its lock where that is known.
pub open spec fn running_said(live: Liveness, holder: Option<String>) -> Seq<char> {
    match live {
        Liveness::Running => match holder {
            Some(w) => "running   yes ("@ + w@ + ")"@,
            None => "running   yes"@,
        },
        Liveness::Stopped => "running   no"@,
        Liveness::Unknown => "running   unknown (the lock is not readable from here)"@,
    }
}

/// What the places' file says, where it does not simply hold them.
pub open spec fn places_said(p: Places, file: Seq<char>) -> Seq<Seq<char>> {
    match p {
        Places::Unreadable => seq![
            "positions UNREADABLE ("@ + file
                + ") — which is not \"nothing consumed\": nothing below can be trusted, and the interest axis fails closed for every store while it lasts"@,
        ],
        Places::Never => seq!["positions none — it has never read anything"@],
        Places::Held(_) => Seq::empty(),
    }
}

/// The consumer's last word that is about no store.
pub open spec fn last_word(p: Places) -> Seq<Seq<char>> {
    match p {
        Places::Held(p) => match p.note {
            Some(n) => seq!["note      "@ + n.text@ + " ("@ + n.when@ + ")"@],
            None => Seq::empty(),
        },
        _ => Seq::empty(),
    }
}

/// One follower on one page: what it declares, where it stands, and whether
/// anything is honouring it.
pub open spec fn status_said(r: Registered, reg: Seq<char>, facts: StatusFacts) -> Seq<Seq<char>> {
    seq![
        "follower  "@ + r.decl.name@,
        "follows   "@ + r.decl.select@,
        "command   "@ + joined(texts(r.decl.command@), " "@),
        retaining_said(r.decl.retaining, r.covered@.len(), facts.honouring as nat),
    ] + places_said(
        r.places,
        join_path(join_path(reg, r.decl.name@), "positions.json"@),
    ) + seq!["stores    "@ + decimal(r.covered@.len())] + (if r.covered@.len() == 0 {
        seq![
            "          the selection matches nothing right now, which is a legitimate state: a follower may be declared before its stores exist"@,
        ]
    } else {
        Seq::empty()
    }) + stores_said(r.covered@, facts.shown@) + left_said(
        left_behind(r, texts(facts.on_disk@)),
    ) + last_word(r.places) + seq![
        running_said(r.live, facts.holder),
        "unit      "@ + unit_of(r.decl.name@),
    ]
}

fn running_line(live: Liveness, holder: &Option<String>) -> (r: String)
    ensures
        r@ == running_said(live, *holder),
{
    match live {
        Liveness::Running => match holder {
            Some(w) => text("running   yes (").concat(w.as_str()).concat(")"),
            None => text("running   yes"),
        },
        Liveness::Stopped => text("running   no"),
        Liveness::Unknown => text("running   unknown (the lock is not readable from here)"),
    }
}

/// One follower on one page.
pub fn status_lines(r: &Registered, reg: &str, facts: &StatusFacts) -> (lines: Vec<String>)
    requires
        facts.shown@.len() == r.covered@.len(),
    ensures
        texts(lines@) == status_said(*r, reg@, *facts),
{
    let n: usize = r.covered.len();
    let mut out = nothing_said();
    say(&mut out, text("follower  ").concat(r.name()));
    say(&mut out, text("follows   ").concat(r.decl.select.as_str()));
    say(&mut out, text("command   ").concat(join(&r.decl.command, " ").as_str()));
    say(&mut out, retaining_line(r, facts.honouring));
    let ghost a = seq![
        "follower  "@ + r.decl.name@,
        "follows   "@ + r.decl.select@,
        "command   "@ + joined(texts(r.decl.command@), " "@),
        retaining_said(r.decl.retaining, r.covered@.len(), facts.honouring as nat),
    ];
    proof {
        assert(texts(out@) =~= a);
    }
    let mut places = nothing_said();
    match &r.places {
        Places::Unreadable => {
            say(
                &mut places,
                text("positions UNREADABLE (").concat(
                    positions_path(reg, r.name()).as_str(),
                ).concat(
                    ") — which is not \"nothing consumed\": nothing below can be trusted, and the interest axis fails closed for every store while it lasts",
                ),
            );
        },
        Places::Never => {
            say(&mut places, text("positions none — it has never read anything"));
        },
        Places::Held(_) => {},
    }
    let ghost b = places_said(
        r.places,
        join_path(join_path(reg@, r.decl.name@), "positions.json"@),
    );
    proof {
        assert(texts(places@) =~= b);
    }
    say_all(&mut out, &places);
    say(&mut out, text("stores    ").concat(number_text(n as u64).as_str()));
    let ghost c = seq!["stores    "@ + decimal(r.covered@.len())];
    proof {
        assert(texts(out@) =~= a + b + c);
    }
    let mut none = nothing_said();
    if n == 0 {
        say(
            &mut none,
            text(
                "          the selection matches nothing right now, which is a legitimate state: a follower may be declared before its stores exist",
            ),
        );
    }
    let ghost d = if r.covered@.len() == 0 {
        seq![
            "          the selection matches nothing right now, which is a legitimate state: a follower may be declared before its stores exist"@,
        ]
    } else {
        Seq::empty()
    };
    proof {
        assert(texts(none@) =~= d);
    }
    say_all(&mut out, &none);
    let mut stores = nothing_said();
    let mut i: usize = 0;
    while i < r.covered.len()
        invariant
            i <= r.covered@.len(),
            facts.shown@.len() == r.covered@.len(),
            texts(stores@) == stores_said(r.covered@.take(i as int), facts.shown@),
        decreases r.covered@.len() - i,
    {
        proof {
            assert(r.covered@.take(i + 1).drop_last() =~= r.covered@.take(i as int));
        }
        let more = lines_of_store(&r.covered[i], &facts.shown[i]);
        say_all(&mut stores, &more);
        i = i + 1;
    }
    proof {
        assert(r.covered@.take(i as int) =~= r.covered@);
    }
    say_all(&mut out, &stores);
    let left = r.uncovered(&facts.on_disk);
    let left_shown = left_lines(&left);
    say_all(&mut out, &left_shown);
    let mut word = nothing_said();
    if let Places::Held(p) = &r.places {
        if let Some(note) = &p.note {
            say(
                &mut word,
                text("note      ").concat(note.text.as_str()).concat(" (").concat(
                    note.when.as_str(),
                ).concat(")"),
            );
        }
    }
    proof {
        assert(texts(word@) =~= last_word(r.places));
    }
    say_all(&mut out, &word);
    let ghost so_far = texts(out@);
    say(&mut out, running_line(r.live, &facts.holder));
    say(&mut out, text("unit      ").concat(unit_name(r.name()).as_str()));
    proof {
        let e = seq![running_said(r.live, facts.holder), "unit      "@ + unit_of(r.decl.name@)];
        assert(texts(out@) =~= so_far + e);
    }
    out
}

} // verus!
