//! What registering, changing and showing followers comes to.

use crate::declaration::{Declaration, DeclarationModel};
use crate::follower::{
    follows, handle_at, places_outcome, total_behind, unread_among, Covered, CoveredModel,
    CursorFile, Liveness, Matched, Places, PositionsFile, Registered, UncoveredModel,
};
use crate::forests::is_name;
use crate::paths::file_name;
use crate::registration::{
    all_unset, coverage_said, create_outcome, first_names, joining, leaving, membership_said,
    registered_said, release_said, repoints, setting_outcome, update_outcome, Change, CreateError,
    CreateOpts, Selecting, Setting, UpdateError,
};
use crate::registry_view::{
    last_word, left_said, places_said, retaining_said, running_said, status_said, store_lines,
    stores_said, under, Shown, StatusFacts,
};
use crate::text::{decimal, joined, split_once, texts, trim};
use vstd::prelude::*;

verus! {

/// A follower is registered where it has a name that is free, a program to feed
/// and one selection; which of these is missing is said in that order.
pub proof fn a_follower_is_registered_where_nothing_is_missing(
    name: &str,
    opts: CreateOpts,
    dir: &str,
    taken: bool,
    r: Result<Selecting, CreateError>,
)
    requires
        create_outcome(name, opts, dir, taken, r),
    ensures
        r is Ok <==> is_name(name@) && opts.command@.len() > 0 && !taken && (opts.select is Some)
            != (opts.store is Some),
        r is Ok && opts.select is Some ==> r->Ok_0 is Predicate && r->Ok_0->Predicate_0@
            == opts.select->Some_0@,
        r is Ok && opts.store is Some ==> r->Ok_0 is Store && r->Ok_0->Store_0@
            == opts.store->Some_0@,
        r is Err && r->Err_0 is Name <==> !is_name(name@),
        is_name(name@) && opts.command@.len() == 0 ==> r is Err && r->Err_0 is NoConsumer,
        is_name(name@) && opts.command@.len() > 0 && taken ==> r is Err && r->Err_0 is Exists,
        r is Err && r->Err_0 is TwoSelections ==> opts.select is Some && opts.store is Some,
        r is Err && r->Err_0 is NoSelection ==> opts.select is None && opts.store is None,
{
}

/// A setting is taken under the four keys that can be set, with what is said
/// behind the equals sign, less the white space around it; a name and a date
/// are never set.
pub proof fn four_keys_can_be_set(kv: Seq<char>, r: Result<Setting, UpdateError>)
    requires
        setting_outcome(kv, r),
    ensures
        ({
            let key = trim(split_once(kv, '=')->Some_0.0);
            let value = trim(split_once(kv, '=')->Some_0.1);
            &&& r is Ok ==> split_once(kv, '=') is Some && (key == "retaining"@ || key == "select"@
                || key == "follow_from"@ || key == "store"@)
            &&& split_once(kv, '=') is None ==> r is Err && r->Err_0 is NotAPair
            &&& split_once(kv, '=') is Some && (key == "select"@ || key == "follow_from"@ || key
                == "store"@) ==> r is Ok
            &&& split_once(kv, '=') is Some && key == "retaining"@ ==> (r is Ok <==> value
                == "true"@ || value == "false"@)
            &&& r is Ok && key == "retaining"@ ==> r->Ok_0 == Setting::Retaining(value == "true"@)
            &&& r is Ok && key == "select"@ ==> r->Ok_0 is Select && r->Ok_0->Select_0@ == value
            &&& r is Ok && key == "store"@ ==> r->Ok_0 is Store && r->Ok_0->Store_0@ == value
            &&& r is Ok && key == "follow_from"@ ==> r->Ok_0 is FollowFrom
                && r->Ok_0->FollowFrom_0@ == value
            &&& split_once(kv, '=') is Some && (key == "name"@ || key == "created"@) ==> r is Err
                && r->Err_0 is Identity
        }),
{
    reveal_strlit("retaining");
    reveal_strlit("select");
    reveal_strlit("follow_from");
    reveal_strlit("store");
    reveal_strlit("name");
    reveal_strlit("created");
    reveal_strlit("true");
    reveal_strlit("false");
    assert("retaining"@.len() == 9 && "select"@.len() == 6 && "follow_from"@.len() == 11
        && "store"@.len() == 5 && "name"@.len() == 4 && "created"@.len() == 7 && "true"@.len() == 4
        && "false"@.len() == 5);
}

/// An update takes what is to be fed where that is given, and leaves it where it
/// is not; what would leave nothing to feed is refused.
pub proof fn an_update_always_leaves_something_to_feed(
    d: DeclarationModel,
    unsets: Seq<Seq<char>>,
    command: Option<Vec<String>>,
    r: Result<Declaration, UpdateError>,
)
    requires
        update_outcome(d, unsets, command, r),
        d.command.len() > 0,
    ensures
        r is Ok <==> all_unset(d, unsets) is Ok && (command is Some ==> command->Some_0@.len() > 0),
        r is Ok ==> r->Ok_0@.command.len() > 0 || command is None,
        r is Ok && command is Some ==> r->Ok_0@.command == texts(command->Some_0@),
        r is Ok ==> r->Ok_0@ == (DeclarationModel {
            command: r->Ok_0@.command,
            ..all_unset(d, unsets)->Ok_0
        }),
        r is Ok && command is None ==> r->Ok_0@ == all_unset(d, unsets)->Ok_0,
{
}

/// A follower is told that it keeps an old place only where it is pointed at
/// another store and has a place to keep.
pub proof fn only_another_store_repoints(
    change: Change,
    followed: Option<Seq<char>>,
    places: Places,
)
    ensures
        repoints(change, followed, places) ==> change is Store && followed != Some(
            change->anchor@,
        ) && places is Held && places->Held_0.at@.len() > 0,
        change is Store && followed != Some(change->anchor@) && places is Held
            && places->Held_0.at@.len() > 0 ==> repoints(change, followed, places),
{
}

/// Letting go is said exactly where a follower that held something back no
/// longer does, and then that it does not undo is said too.
pub proof fn letting_go_is_said(before: Registered, after: DeclarationModel, held: Seq<char>)
    ensures
        release_said(before, after, held).len() == 0 <==> !before.decl.retaining
            || after.retaining,
        before.decl.retaining && !after.retaining ==> release_said(before, after, held).len() == 2,
        before.decl.retaining && !after.retaining && total_behind(before.covered@) == 0
            && unread_among(before.covered@) == 0 ==> release_said(before, after, held)[0]
            == "timberfs: "@ + after.name + " releases the head (it was holding nothing)"@,
{
}

/// The first names are six at most, in order, with commas between them.
pub proof fn six_names_are_shown(names: Seq<Seq<char>>)
    ensures
        names.len() <= 6 ==> first_names(names) == joined(names, ", "@),
        names.len() > 6 ==> first_names(names) == joined(names.take(6), ", "@),
{
    if names.len() < 6 {
        assert(names.take(names.len() as int) =~= names);
    } else if names.len() == 6 {
        assert(names.take(6) =~= names);
    }
}

/// What is said of a selection: that it matches nothing where it does; how many
/// stores are held where they are; and how many cannot be followed where there
/// are any.
pub proof fn what_is_said_of_a_selection(
    d: DeclarationModel,
    identified: Seq<Seq<char>>,
    idless: Seq<Seq<char>>,
)
    ensures
        coverage_said(d, identified, idless).len() == (if identified.len() == 0 || d.retaining {
            1int
        } else {
            0int
        }) + (if idless.len() > 0 {
            1int
        } else {
            0int
        }),
        registered_said(d, identified, idless).len() == 1 + coverage_said(
            d,
            identified,
            idless,
        ).len() + (if d.retaining {
            1int
        } else {
            0int
        }),
        registered_said(d, identified, idless)[0] == "timberfs: registered follower "@ + d.name
            + " on "@ + d.select + " ("@ + decimal(identified.len()) + " store(s) now)"@,
{
}

/// What a new selection covers is said: that nothing changed where no store came
/// or went; else which came, and which went.
pub proof fn what_came_and_went_is_said(
    before: Registered,
    d: DeclarationModel,
    after: Seq<Matched>,
    freed: Seq<char>,
)
    ensures
        ({
            let come = joining(after, before.covered@);
            let go = leaving(before.covered@, after);
            let said = membership_said(before, d, after, freed);
            &&& come.len() == 0 && go.len() == 0 ==> said.len() == 1
            &&& come.len() > 0 && go.len() == 0 ==> said.len() == 1
            &&& go.len() > 0 ==> said.len() == (if come.len() > 0 {
                1int
            } else {
                0int
            }) + (if before.decl.retaining && d.retaining {
                3int
            } else {
                2int
            })
        }),
{
}

// ------------------------------------------------------------------- places

/// A follower's places are those that are recorded; where none are, the one that
/// an older cursor holds, if it delivered anything and it is known of which
/// store; and what cannot be read is never taken for nothing.
pub proof fn places_are_what_is_recorded(
    positions: PositionsFile,
    anchor: Option<&str>,
    cursor: CursorFile,
    r: Places,
)
    requires
        places_outcome(positions, anchor, cursor, r),
    ensures
        positions is Held ==> r == Places::Held(positions->Held_0),
        positions is Unreadable ==> r is Unreadable,
        positions is Missing && cursor is Unreadable ==> r is Unreadable,
        positions is Missing && cursor is Missing ==> r is Never,
        r is Unreadable ==> positions is Unreadable || (positions is Missing
            && cursor is Unreadable),
        positions is Missing && cursor is Held ==> (r is Held <==> anchor is Some
            && cursor->Held_0.delivered > 0),
        positions is Missing && cursor is Held && r is Held ==> r->Held_0.at@.len() == 1
            && r->Held_0.at@[0].id@ == anchor->Some_0@ && r->Held_0.at@[0].chunk
            == cursor->Held_0.seq && r->Held_0.at@[0].delivered == cursor->Held_0.delivered,
{
}

/// What a follower follows is shown by the handle of the store, where it covers
/// one that has a name, and by its selection otherwise.
pub proof fn one_store_is_shown_by_its_handle(r: Registered)
    ensures
        r.covered@.len() != 1 ==> follows(r) == r.decl.select@,
        r.covered@.len() == 1 && file_name(r.covered@[0].path@) is Some && file_name(
            r.covered@[0].path@,
        )->Some_0.len() > 0 ==> follows(r) == handle_at(r.covered@[0].path@),
{
}

// -------------------------------------------------------------------- views

/// What is said of holding back follows what holds: nothing where the follower
/// does not ask, nothing where no store honours it, everything where all do,
/// and how many otherwise.
pub proof fn what_is_said_of_holding_back(covered: nat, honouring: nat)
    requires
        honouring <= covered,
    ensures
        retaining_said(false, covered, honouring)
            == "retaining no — it holds nothing back; retention ignores its positions"@,
        honouring == 0 ==> retaining_said(true, covered, honouring)
            == "retaining yes — declared, but no covered store declares retain_unconsumed, so nothing honours it yet"@,
        honouring > 0 && honouring == covered ==> retaining_said(true, covered, honouring)
            == "retaining yes — its positions hold every covered store's head back, until retain_size overrides it"@,
        0 < honouring < covered ==> retaining_said(true, covered, honouring)
            == "retaining yes — honoured by "@ + decimal(honouring) + " of "@ + decimal(covered)
            + " covered store(s); the rest do not declare retain_unconsumed"@,
{
}

/// A store is shown by a line of its own; a gap, or what is unread, takes one
/// more, and a note one, with one behind it where it says at which byte.
pub proof fn a_store_is_shown_in_as_many_lines_as_it_takes(
    c: CoveredModel,
    distance: Seq<char>,
    unread: Seq<char>,
)
    ensures
        ({
            let said = store_lines(c, distance, unread);
            let gap = c.standing is Some && c.standing->Some_0.gap_chunks is Some;
            let behind = c.standing is Some && !gap && c.standing->Some_0.behind_chunks > 0
                && c.standing->Some_0.behind_ms != 0;
            &&& said.len() == 1 + (if gap || behind {
                1int
            } else {
                0int
            }) + (if c.note is Some {
                1int
            } else {
                0int
            }) + (if c.note is Some && c.note->Some_0.offset is Some {
                1int
            } else {
                0int
            })
            &&& !c.read ==> said[0] == under(handle_at(c.path), "never read"@)
            &&& c.read && c.standing is None ==> said[0] == under(
                handle_at(c.path),
                "store unreadable"@,
            )
            &&& c.read && c.standing is Some ==> said[0] == under(
                handle_at(c.path),
                c.standing->Some_0.lag(distance),
            )
        }),
{
}

/// Every store is shown, in order.
pub proof fn every_store_is_shown_in_order(v: Seq<Covered>, shown: Seq<Shown>, c: Covered)
    requires
        v.len() < shown.len(),
    ensures
        stores_said(Seq::empty(), shown).len() == 0,
        stores_said(v.push(c), shown) == stores_said(v, shown) + store_lines(
            c@,
            shown[v.len() as int].distance@,
            shown[v.len() as int].unread@,
        ),
{
    assert(v.push(c).drop_last() =~= v);
}

/// What is left behind is said of where anything is.
pub proof fn what_is_left_behind_is_said(v: Seq<UncoveredModel>)
    ensures
        left_said(v).len() == 0 <==> v.len() == 0,
        v.len() > 0 ==> left_said(v).len() == 2,
{
}

/// Whether a follower runs is said as it is known, with who runs it where that is
/// known; and its places are said of only where they are not held.
pub proof fn running_is_said_as_it_is_known(
    live: Liveness,
    holder: Option<String>,
    p: Places,
    file: Seq<char>,
)
    ensures
        live is Running && holder is None ==> running_said(live, holder) == "running   yes"@,
        live is Running && holder is Some ==> running_said(live, holder) == "running   yes ("@
            + holder->Some_0@ + ")"@,
        live is Stopped ==> running_said(live, holder) == "running   no"@,
        live is Unknown ==> running_said(live, holder)
            == "running   unknown (the lock is not readable from here)"@,
        places_said(p, file).len() == 0 <==> p is Held,
        !(p is Held) ==> places_said(p, file).len() == 1,
{
}

/// A follower's status says who it is, what it follows and whether it holds
/// anything back before all else, and whether it runs and under which unit
/// behind all else; between them stand its stores.
pub proof fn a_status_says_who_it_is_first(r: Registered, reg: Seq<char>, facts: StatusFacts)
    ensures
        ({
            let said = status_said(r, reg, facts);
            let n = said.len() as int;
            &&& n >= 7
            &&& said[0] == "follower  "@ + r.decl.name@
            &&& said[1] == "follows   "@ + r.decl.select@
            &&& said[2] == "command   "@ + joined(texts(r.decl.command@), " "@)
            &&& said[3] == retaining_said(
                r.decl.retaining,
                r.covered@.len(),
                facts.honouring as nat,
            )
            &&& r.places is Held ==> said[4] == "stores    "@ + decimal(r.covered@.len())
            &&& !(r.places is Held) ==> said[5] == "stores    "@ + decimal(r.covered@.len())
            &&& said[n - 2] == running_said(r.live, facts.holder)
            &&& said[n - 1] == "unit      "@ + ("timberfs-follower@"@ + r.decl.name@ + ".service"@)
        }),
{
}

/// A consumer's last word is told where it left one.
pub proof fn a_last_word_is_told(p: Places)
    ensures
        last_word(p).len() == 1 <==> p is Held && p->Held_0.note is Some,
        last_word(p).len() <= 1,
        last_word(p).len() == 1 ==> last_word(p)[0] == "note      "@ + p->Held_0.note->Some_0.text@
            + " ("@ + p->Held_0.note->Some_0.when@ + ")"@,
{
}

} // verus!
