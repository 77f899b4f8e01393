//! What a set of declared intakes comes to, read as a whole.

use crate::append::duration_ms;
use crate::file_intake::{
    declared, entry_of, filed, first_bad, first_follower, first_named, first_relative, header_step,
    key_step, line_step, name_problem, read_lines, stated, EntryModel, ReadModel, SectionModel,
    SettingsModel,
};
use crate::measure::Amount;
use crate::paths::{is_absolute, same_path};
use crate::text::{is_space, lines, split_once, strip_suffix, trim, words};
use vstd::prelude::*;

verus! {

// -------------------------------------------------------------------- lines

/// Whether a line says something: it is neither blank nor a comment.
pub open spec fn says_something(raw: Seq<char>) -> bool {
    trim(raw).len() > 0 && trim(raw)[0] != '#'
}

/// Whether a line starts a section.
pub open spec fn starts_section(raw: Seq<char>) -> bool {
    trim(raw).len() > 0 && trim(raw)[0] == '['
}

/// The name in the brackets of a line that starts a section.
pub open spec fn section_name(raw: Seq<char>) -> Seq<char> {
    trim(trim(raw).drop_first().drop_last())
}

/// Whether a line states a key.
pub open spec fn states_key(raw: Seq<char>, key: Seq<char>) -> bool {
    says_something(raw) && !starts_section(raw) && split_once(trim(raw), '=') is Some && trim(
        split_once(trim(raw), '=')->Some_0.0,
    ) == key
}

/// What a line states of its key.
pub open spec fn value_stated(raw: Seq<char>) -> Seq<char> {
    trim(split_once(trim(raw), '=')->Some_0.1)
}

/// What the last of the lines from `lo` up to `hi` that state a key state of it.
pub open spec fn last_stated(ls: Seq<Seq<char>>, lo: int, hi: int, key: Seq<char>) -> Option<
    Seq<char>,
>
    decreases hi - lo,
{
    if hi <= lo {
        None
    } else if states_key(ls[hi - 1], key) {
        Some(value_stated(ls[hi - 1]))
    } else {
        last_stated(ls, lo, hi - 1, key)
    }
}

/// The lines among the first that start a section.
pub open spec fn section_starts(ls: Seq<Seq<char>>, n: int) -> Seq<int>
    decreases n,
{
    if n <= 0 {
        Seq::empty()
    } else if starts_section(ls[n - 1]) {
        section_starts(ls, n - 1).push(n - 1)
    } else {
        section_starts(ls, n - 1)
    }
}

/// Whether a number is the milliseconds that a text spells.
pub open spec fn spells(v: Seq<char>, ms: u64) -> bool {
    duration_ms(v) == Amount::Value(ms)
}

/// What is in force of a key: what was stated of it here, else what was stated
/// of it before every section.
pub open spec fn in_force(own: Option<Seq<char>>, before: Option<Seq<char>>) -> Option<Seq<char>> {
    if own is Some {
        own
    } else {
        before
    }
}

/// Whether an entry is what the lines from `lo` up to `hi` state, behind a line
/// that names it, and where they state nothing what the lines up to `first`
/// state; and where those state nothing either what holds of every entry.
pub open spec fn is_stated(
    e: EntryModel,
    ls: Seq<Seq<char>>,
    at: int,
    hi: int,
    first: int,
) -> bool {
    let lo = at + 1;
    let dir = in_force(
        last_stated(ls, lo, hi, "STORE_DIR"@),
        last_stated(ls, 0, first, "STORE_DIR"@),
    );
    let declare = in_force(
        last_stated(ls, lo, hi, "DECLARE"@),
        last_stated(ls, 0, first, "DECLARE"@),
    );
    let poll = in_force(last_stated(ls, lo, hi, "POLL"@), last_stated(ls, 0, first, "POLL"@));
    let age = in_force(
        last_stated(ls, lo, hi, "FLUSH_AGE"@),
        last_stated(ls, 0, first, "FLUSH_AGE"@),
    );
    let rotated = in_force(
        last_stated(ls, lo, hi, "ROTATED"@),
        last_stated(ls, 0, first, "ROTATED"@),
    );
    &&& e.store == section_name(ls[at])
    &&& last_stated(ls, lo, hi, "SOURCE"@) == Some(e.source)
    &&& e.store_dir == (if dir is Some {
        dir->Some_0
    } else {
        "/var/log/timberfs"@
    })
    &&& e.declare == (if declare is Some {
        words(declare->Some_0)
    } else {
        Seq::empty()
    })
    &&& poll is Some ==> spells(poll->Some_0, e.poll_ms)
    &&& poll is None ==> e.poll_ms == 1_000
    &&& age is Some ==> spells(age->Some_0, e.flush_age_ms)
    &&& age is None ==> e.flush_age_ms == 60_000
    &&& e.rotated == (if rotated is Some {
        words(rotated->Some_0)
    } else {
        Seq::empty()
    })
}

/// Whether settings are what the lines from `lo` up to `hi` state.
spec fn settings_stated(o: SettingsModel, ls: Seq<Seq<char>>, lo: int, hi: int) -> bool {
    let declare = last_stated(ls, lo, hi, "DECLARE"@);
    let poll = last_stated(ls, lo, hi, "POLL"@);
    let age = last_stated(ls, lo, hi, "FLUSH_AGE"@);
    let rotated = last_stated(ls, lo, hi, "ROTATED"@);
    &&& o.dir == last_stated(ls, lo, hi, "STORE_DIR"@)
    &&& o.declare is Some == declare is Some
    &&& declare is Some ==> o.declare->Some_0 == words(declare->Some_0)
    &&& o.poll_ms is Some == poll is Some
    &&& poll is Some ==> spells(poll->Some_0, o.poll_ms->Some_0)
    &&& o.flush_age_ms is Some == age is Some
    &&& age is Some ==> spells(age->Some_0, o.flush_age_ms->Some_0)
    &&& o.rotated is Some == rotated is Some
    &&& rotated is Some ==> o.rotated->Some_0 == words(rotated->Some_0)
}

/// What has been read of the first `n` lines.
spec fn has_read(st: ReadModel, ls: Seq<Seq<char>>, n: int) -> bool {
    let hs = section_starts(ls, n);
    &&& hs.len() == 0 ==> st.open is None && st.entries.len() == 0 && settings_stated(
        st.defaults,
        ls,
        0,
        n,
    )
    &&& hs.len() > 0 ==> {
        &&& 0 <= hs[0] && 0 <= hs.last() < n
        &&& settings_stated(st.defaults, ls, 0, hs[0])
        &&& st.entries.len() == hs.len() - 1
        &&& st.open is Some
        &&& st.open->Some_0.store == section_name(ls[hs.last()])
        &&& st.open->Some_0.source == last_stated(ls, hs.last() + 1, n, "SOURCE"@)
        &&& settings_stated(st.open->Some_0.own, ls, hs.last() + 1, n)
        &&& forall|i: int|
            0 <= i < st.entries.len() ==> is_stated(
                #[trigger] st.entries[i],
                ls,
                hs[i],
                hs[i + 1],
                hs[0],
            )
    }
}

proof fn lemma_keys_apart()
    ensures
        "SOURCE"@ != "STORE_DIR"@ && "SOURCE"@ != "DECLARE"@ && "SOURCE"@ != "POLL"@ && "SOURCE"@
            != "FLUSH_AGE"@ && "SOURCE"@ != "ROTATED"@,
        "STORE_DIR"@ != "DECLARE"@ && "STORE_DIR"@ != "POLL"@ && "STORE_DIR"@ != "FLUSH_AGE"@
            && "STORE_DIR"@ != "ROTATED"@,
        "DECLARE"@ != "POLL"@ && "DECLARE"@ != "FLUSH_AGE"@ && "DECLARE"@ != "ROTATED"@,
        "POLL"@ != "FLUSH_AGE"@ && "POLL"@ != "ROTATED"@,
        "FLUSH_AGE"@ != "ROTATED"@,
{
    reveal_strlit("SOURCE");
    reveal_strlit("STORE_DIR");
    reveal_strlit("DECLARE");
    reveal_strlit("POLL");
    reveal_strlit("FLUSH_AGE");
    reveal_strlit("ROTATED");
    assert("SOURCE"@.len() == 6 && "STORE_DIR"@.len() == 9 && "DECLARE"@.len() == 7 && "POLL"@.len()
        == 4 && "FLUSH_AGE"@.len() == 9 && "ROTATED"@.len() == 7);
    assert("STORE_DIR"@[0] == 'S' && "FLUSH_AGE"@[0] == 'F' && "DECLARE"@[0] == 'D' && "ROTATED"@[0]
        == 'R');
}

/// Settings after one more line that states a key of theirs.
proof fn lemma_stated(
    o: SettingsModel,
    ls: Seq<Seq<char>>,
    lo: int,
    n: int,
    line: nat,
)
    requires
        0 <= lo <= n < ls.len(),
        settings_stated(o, ls, lo, n),
        says_something(ls[n]),
        !starts_section(ls[n]),
        split_once(trim(ls[n]), '=') is Some,
        trim(split_once(trim(ls[n]), '=')->Some_0.0) != "SOURCE"@,
        crate::file_intake::is_setting(trim(split_once(trim(ls[n]), '=')->Some_0.0)),
        stated(
            o,
            line,
            trim(split_once(trim(ls[n]), '=')->Some_0.0),
            value_stated(ls[n]),
        ) is Ok,
    ensures
        settings_stated(
            stated(
                o,
                line,
                trim(split_once(trim(ls[n]), '=')->Some_0.0),
                value_stated(ls[n]),
            )->Ok_0,
            ls,
            lo,
            n + 1,
        ),
        last_stated(ls, lo, n + 1, "SOURCE"@) == last_stated(ls, lo, n, "SOURCE"@),
{
    lemma_keys_apart();
    let key = trim(split_once(trim(ls[n]), '=')->Some_0.0);
    assert(states_key(ls[n], key));
}

/// Settings after one more line that states none of their keys.
proof fn lemma_not_stated(o: SettingsModel, ls: Seq<Seq<char>>, lo: int, n: int)
    requires
        0 <= lo <= n < ls.len(),
        settings_stated(o, ls, lo, n),
        !states_key(ls[n], "STORE_DIR"@),
        !states_key(ls[n], "DECLARE"@),
        !states_key(ls[n], "POLL"@),
        !states_key(ls[n], "FLUSH_AGE"@),
        !states_key(ls[n], "ROTATED"@),
    ensures
        settings_stated(o, ls, lo, n + 1),
{
}

/// An entry that is filed is what its section states.
proof fn lemma_entry(
    s: SectionModel,
    source: Seq<char>,
    d: SettingsModel,
    ls: Seq<Seq<char>>,
    at: int,
    hi: int,
    first: int,
)
    requires
        s.store == section_name(ls[at]),
        s.source == Some(source),
        s.source == last_stated(ls, at + 1, hi, "SOURCE"@),
        settings_stated(s.own, ls, at + 1, hi),
        settings_stated(d, ls, 0, first),
    ensures
        is_stated(entry_of(s, source, d), ls, at, hi, first),
{
}

proof fn lemma_step(ls: Seq<Seq<char>>, n: nat)
    requires
        n < ls.len(),
        read_lines(ls, n) is Ok,
        has_read(read_lines(ls, n)->Ok_0, ls, n as int),
        read_lines(ls, n + 1) is Ok,
    ensures
        has_read(read_lines(ls, n + 1)->Ok_0, ls, n as int + 1),
{
    let st = read_lines(ls, n)->Ok_0;
    let now = read_lines(ls, n + 1)->Ok_0;
    let raw = ls[n as int];
    let s = trim(raw);
    let hs = section_starts(ls, n as int);
    let k = n as int;
    assert(Ok::<ReadModel, crate::file_intake::Problem>(now) == line_step(st, n + 1, raw));
    if !says_something(raw) {
        assert(now == st);
        if hs.len() == 0 {
            lemma_not_stated(st.defaults, ls, 0, k);
        } else {
            lemma_not_stated(st.open->Some_0.own, ls, hs.last() + 1, k);
        }
    } else if starts_section(raw) {
        let grown = section_starts(ls, k + 1);
        assert(grown == hs.push(k));
        assert(strip_suffix(s.drop_first(), "]"@) is Some);
        reveal_strlit("]");
        assert(s.drop_first().take(s.drop_first().len() - 1) =~= s.drop_first().drop_last());
        assert(now.open->Some_0.store == section_name(raw));
        assert(now.defaults == st.defaults);
        assert(last_stated(ls, k + 1, k + 1, "SOURCE"@) is None);
        assert(settings_stated(now.open->Some_0.own, ls, k + 1, k + 1));
        if hs.len() > 0 {
            let prev = st.open->Some_0;
            assert(grown[0] == hs[0]);
            assert(now.entries == st.entries.push(
                entry_of(prev, prev.source->Some_0, st.defaults),
            ));
            lemma_entry(
                prev,
                prev.source->Some_0,
                st.defaults,
                ls,
                hs.last(),
                k,
                hs[0],
            );
            assert forall|i: int| 0 <= i < now.entries.len() implies is_stated(
                #[trigger] now.entries[i],
                ls,
                grown[i],
                grown[i + 1],
                grown[0],
            ) by {
                if i < st.entries.len() {
                    assert(now.entries[i] == st.entries[i]);
                    assert(grown[i] == hs[i] && grown[i + 1] == hs[i + 1]);
                }
            }
        }
    } else {
        let key = trim(split_once(s, '=')->Some_0.0);
        lemma_keys_apart();
        assert(split_once(s, '=') is Some);
        assert(states_key(raw, key));
        if hs.len() == 0 {
            lemma_stated(st.defaults, ls, 0, k, n + 1);
        } else if key == "SOURCE"@ {
            lemma_not_stated(st.open->Some_0.own, ls, hs.last() + 1, k);
        } else {
            lemma_stated(st.open->Some_0.own, ls, hs.last() + 1, k, n + 1);
        }
    }
}

proof fn lemma_has_read(ls: Seq<Seq<char>>, n: nat)
    requires
        n <= ls.len(),
        read_lines(ls, n) is Ok,
    ensures
        has_read(read_lines(ls, n)->Ok_0, ls, n as int),
    decreases n,
{
    if n > 0 {
        lemma_has_read(ls, (n - 1) as nat);
        lemma_step(ls, (n - 1) as nat);
    }
}

/// A set that is accepted has an entry for every line that starts a section and
/// no other, in their order. Each is named by that line, and states of each key
/// what the last line of its section that states the key says; where none does,
/// what the last such line before every section says; and where none does there
/// either, what holds of every entry.
pub proof fn every_section_is_an_entry_and_states_its_own(s: Seq<char>)
    requires
        declared(s) is Ok,
    ensures
        ({
            let ls = lines(s);
            let at = section_starts(ls, ls.len() as int);
            let es = declared(s)->Ok_0;
            &&& es.len() == at.len()
            &&& es.len() > 0
            &&& forall|i: int|
                0 <= i < es.len() ==> is_stated(
                    #[trigger] es[i],
                    ls,
                    at[i],
                    if i + 1 < at.len() {
                        at[i + 1]
                    } else {
                        ls.len() as int
                    },
                    at[0],
                )
        }),
{
    let ls = lines(s);
    lemma_has_read(ls, ls.len());
    let st = read_lines(ls, ls.len())->Ok_0;
    let at = section_starts(ls, ls.len() as int);
    let es = declared(s)->Ok_0;
    if at.len() > 0 {
        let last = st.open->Some_0;
        lemma_entry(last, last.source->Some_0, st.defaults, ls, at.last(), ls.len() as int, at[0]);
        assert(es == st.entries.push(entry_of(last, last.source->Some_0, st.defaults)));
        assert forall|i: int| 0 <= i < es.len() implies is_stated(
            #[trigger] es[i],
            ls,
            at[i],
            if i + 1 < at.len() {
                at[i + 1]
            } else {
                ls.len() as int
            },
            at[0],
        ) by {
            if i < st.entries.len() {
                assert(es[i] == st.entries[i]);
            }
        }
    }
}

// ----------------------------------------------------------------- refusals

/// A line that states a key is refused where it is no key, where its value is no
/// duration or no path from the root, and where a source is stated of no
/// section; and nowhere else.
pub proof fn a_key_is_refused_where_its_value_is_none(st: ReadModel, line: nat, s: Seq<char>)
    requires
        split_once(s, '=') is Some,
    ensures
        ({
            let key = trim(split_once(s, '=')->Some_0.0);
            let value = trim(split_once(s, '=')->Some_0.1);
            key_step(st, line, s) is Ok <==> {
                ||| key == "STORE_DIR"@
                ||| key == "DECLARE"@
                ||| (key == "POLL"@ || key == "FLUSH_AGE"@) && duration_ms(value) is Value
                ||| key == "ROTATED"@ && forall|i: int|
                    0 <= i < words(value).len() ==> is_absolute(#[trigger] words(value)[i])
                ||| key == "SOURCE"@ && st.open is Some && is_absolute(value)
            }
        }),
{
    lemma_keys_apart();
    let value = trim(split_once(s, '=')->Some_0.1);
    lemma_relative(words(value));
}

proof fn lemma_relative(ws: Seq<Seq<char>>)
    ensures
        0 <= first_relative(ws) <= ws.len(),
        first_relative(ws) < ws.len() ==> !is_absolute(ws[first_relative(ws)]),
        forall|i: int| 0 <= i < first_relative(ws) ==> is_absolute(#[trigger] ws[i]),
    decreases ws.len(),
{
    if ws.len() > 0 && is_absolute(ws[0]) {
        let t = ws.drop_first();
        lemma_relative(t);
        assert forall|i: int| 0 <= i < first_relative(ws) implies is_absolute(
            #[trigger] ws[i],
        ) by {
            if i > 0 {
                assert(ws[i] == t[i - 1]);
            }
        }
    }
}

/// A store's name is not empty, does not start with a dot, and holds no white
/// space, no separator and no zero character.
pub proof fn a_section_names_a_store(name: Seq<char>, line: nat)
    ensures
        name_problem(name, line) is None <==> name.len() > 0 && name[0] != '.' && forall|i: int|
            0 <= i < name.len() ==> !is_space(#[trigger] name[i]) && name[i] != '/' && name[i]
                != '\0',
{
    lemma_bad(name);
}

proof fn lemma_bad(name: Seq<char>)
    ensures
        0 <= first_bad(name) <= name.len(),
        first_bad(name) < name.len() ==> crate::file_intake::bad_in_name(name[first_bad(name)]),
        forall|i: int|
            0 <= i < first_bad(name) ==> !crate::file_intake::bad_in_name(#[trigger] name[i]),
    decreases name.len(),
{
    if name.len() > 0 && !crate::file_intake::bad_in_name(name[0]) {
        let t = name.drop_first();
        lemma_bad(t);
        assert forall|i: int| 0 <= i < first_bad(name) implies !crate::file_intake::bad_in_name(
            #[trigger] name[i],
        ) by {
            if i > 0 {
                assert(name[i] == t[i - 1]);
            }
        }
    }
}

/// A section is filed where it has a source that no section before it follows;
/// one without a source, and one whose source is followed already, are refused.
pub proof fn a_section_is_filed_where_its_source_is_its_own(
    entries: Seq<EntryModel>,
    s: SectionModel,
    d: SettingsModel,
)
    ensures
        filed(entries, s, d) is Ok <==> s.source is Some && forall|i: int|
            0 <= i < entries.len() ==> !same_path(
                (#[trigger] entries[i]).source,
                s.source->Some_0,
            ),
        filed(entries, s, d) is Ok ==> filed(entries, s, d)->Ok_0 == entries.push(
            entry_of(s, s.source->Some_0, d),
        ),
{
    if s.source is Some {
        lemma_follower(entries, s.source->Some_0, entries.len() as int);
    }
}

proof fn lemma_follower(entries: Seq<EntryModel>, source: Seq<char>, n: int)
    requires
        0 <= n <= entries.len(),
    ensures
        0 <= first_follower(entries, source, n) <= n,
        first_follower(entries, source, n) < n ==> same_path(
            entries[first_follower(entries, source, n)].source,
            source,
        ),
        forall|i: int|
            0 <= i < first_follower(entries, source, n) ==> !same_path(
                (#[trigger] entries[i]).source,
                source,
            ),
    decreases n,
{
    if n > 0 {
        lemma_follower(entries, source, n - 1);
    }
}

/// A line that starts a section is refused where it is not closed, where its
/// name is none or is taken, and where the section before it cannot be filed;
/// and nowhere else.
pub proof fn a_section_is_refused_where_its_name_is_taken(st: ReadModel, line: nat, s: Seq<char>)
    requires
        s.len() > 0,
    ensures
        header_step(st, line, s) is Ok <==> {
            &&& s.len() > 1 && s.last() == ']'
            &&& name_problem(trim(s.drop_first().drop_last()), line) is None
            &&& forall|i: int|
                0 <= i < st.named.len() ==> (#[trigger] st.named[i]).0 != trim(
                    s.drop_first().drop_last(),
                )
            &&& st.open is Some ==> filed(st.entries, st.open->Some_0, st.defaults) is Ok
        },
{
    reveal_strlit("]");
    assert("]"@ =~= seq![']']);
    let t = s.drop_first();
    if t.len() > 0 {
        assert(t.last() == s.last());
        assert(t.skip(t.len() - 1) =~= seq![t.last()]);
        assert(t.take(t.len() - 1) =~= t.drop_last());
        if t.last() == ']' {
            assert(t.skip(t.len() - 1) == "]"@);
        } else if t.skip(t.len() - 1) == "]"@ {
            assert(seq![t.last()][0] == ']');
        }
        lemma_named(st.named, trim(t.drop_last()));
    }
}

proof fn lemma_named(named: Seq<(Seq<char>, nat)>, name: Seq<char>)
    ensures
        0 <= first_named(named, name) <= named.len(),
        first_named(named, name) < named.len() ==> named[first_named(named, name)].0 == name,
        forall|i: int| 0 <= i < first_named(named, name) ==> (#[trigger] named[i]).0 != name,
    decreases named.len(),
{
    if named.len() > 0 && named[0].0 != name {
        let t = named.drop_first();
        lemma_named(t, name);
        assert forall|i: int| 0 <= i < first_named(named, name) implies (#[trigger] named[i]).0
            != name by {
            if i > 0 {
                assert(named[i] == t[i - 1]);
            }
        }
    }
}

} // verus!
