//! What holds of every set that a declaration makes.

use crate::file_intake::{
    declared, entry_of, filed, first_follower, first_named, first_relative, header_step, key_step,
    line_step, name_problem, read_lines, stated, EntryModel, Problem, ReadModel, SectionModel,
    SettingsModel,
};
use crate::paths::{is_absolute, same_path};
use crate::text::{lines, split_once, trim, words};
use vstd::prelude::*;

verus! {

/// Whether a name can name a store.
pub open spec fn names_a_store(name: Seq<char>) -> bool {
    name_problem(name, 0) is None
}

pub open spec fn all_absolute(ws: Seq<Seq<char>>) -> bool {
    forall|i: int| 0 <= i < ws.len() ==> is_absolute(#[trigger] ws[i])
}

spec fn settings_ok(o: SettingsModel) -> bool {
    o.rotated is Some ==> all_absolute(o.rotated->Some_0)
}

/// What holds of the entries of a set: each follows one absolute path into a
/// store that can be named, no two share a source, and no two share a store.
pub open spec fn entries_ok(es: Seq<EntryModel>) -> bool {
    &&& forall|i: int|
        0 <= i < es.len() ==> is_absolute(#[trigger] es[i].source) && names_a_store(es[i].store)
            && all_absolute(es[i].rotated)
    &&& forall|i: int, j: int|
        0 <= i < j < es.len() ==> !same_path(#[trigger] es[i].source, #[trigger] es[j].source)
}

spec fn reading_ok(st: ReadModel) -> bool {
    &&& entries_ok(st.entries)
    &&& settings_ok(st.defaults)
    &&& st.named.len() == st.entries.len() + (if st.open is Some {
        1int
    } else {
        0int
    })
    &&& forall|i: int| 0 <= i < st.entries.len() ==> (#[trigger] st.entries[i]).store
        == st.named[i].0
    &&& forall|i: int| 0 <= i < st.named.len() ==> names_a_store((#[trigger] st.named[i]).0)
    &&& forall|i: int, j: int|
        0 <= i < j < st.named.len() ==> (#[trigger] st.named[i]).0 != (#[trigger] st.named[j]).0
    &&& match st.open {
        Some(s) => {
            &&& st.named.last().0 == s.store
            &&& settings_ok(s.own)
            &&& s.source is Some ==> is_absolute(s.source->Some_0)
        },
        None => true,
    }
}

proof fn lemma_no_follower(es: Seq<EntryModel>, source: Seq<char>, n: int)
    requires
        0 <= n <= es.len(),
        first_follower(es, source, n) >= n,
    ensures
        forall|i: int| 0 <= i < n ==> !same_path(#[trigger] es[i].source, source),
    decreases n,
{
    if n > 0 {
        lemma_first_follower_bound(es, source, n - 1);
        lemma_no_follower(es, source, n - 1);
    }
}

proof fn lemma_first_follower_bound(es: Seq<EntryModel>, source: Seq<char>, n: int)
    requires
        0 <= n <= es.len(),
    ensures
        0 <= first_follower(es, source, n) <= n,
    decreases n,
{
    if n > 0 {
        lemma_first_follower_bound(es, source, n - 1);
    }
}

proof fn lemma_filed(es: Seq<EntryModel>, s: SectionModel, d: SettingsModel)
    requires
        entries_ok(es),
        settings_ok(s.own),
        settings_ok(d),
        s.source is Some ==> is_absolute(s.source->Some_0),
        names_a_store(s.store),
        filed(es, s, d) is Ok,
    ensures
        entries_ok(filed(es, s, d)->Ok_0),
        filed(es, s, d)->Ok_0 == es.push(entry_of(s, s.source->Some_0, d)),
{
    let source = s.source->Some_0;
    let e = entry_of(s, source, d);
    let after = es.push(e);
    lemma_first_follower_bound(es, source, es.len() as int);
    lemma_no_follower(es, source, es.len() as int);
    assert(all_absolute(e.rotated));
    assert forall|i: int| 0 <= i < after.len() implies is_absolute(#[trigger] after[i].source)
        && names_a_store(after[i].store) && all_absolute(after[i].rotated) by {
        if i < es.len() {
            assert(after[i] == es[i]);
            assert(is_absolute(es[i].source));
        }
    }
    assert forall|i: int, j: int| 0 <= i < j < after.len() implies !same_path(
        #[trigger] after[i].source,
        #[trigger] after[j].source,
    ) by {
        assert(after[i] == es[i]);
        if j < es.len() {
            assert(after[j] == es[j]);
            assert(!same_path(es[i].source, es[j].source));
        } else {
            assert(!same_path(es[i].source, source));
        }
    }
}

proof fn lemma_all_absolute(ws: Seq<Seq<char>>)
    requires
        first_relative(ws) >= ws.len(),
    ensures
        all_absolute(ws),
    decreases ws.len(),
{
    if ws.len() > 0 {
        let t = ws.drop_first();
        lemma_all_absolute(t);
        assert forall|i: int| 0 <= i < ws.len() implies is_absolute(#[trigger] ws[i]) by {
            if i > 0 {
                assert(ws[i] == t[i - 1]);
            }
        }
    }
}

proof fn lemma_stated(o: SettingsModel, line: nat, key: Seq<char>, value: Seq<char>)
    requires
        settings_ok(o),
        stated(o, line, key, value) is Ok,
    ensures
        settings_ok(stated(o, line, key, value)->Ok_0),
{
    let ws = words(value);
    if first_relative(ws) >= ws.len() {
        lemma_all_absolute(ws);
    }
}

proof fn lemma_not_named(named: Seq<(Seq<char>, nat)>, name: Seq<char>)
    requires
        first_named(named, name) >= named.len(),
    ensures
        forall|i: int| 0 <= i < named.len() ==> (#[trigger] named[i]).0 != name,
    decreases named.len(),
{
    if named.len() > 0 {
        let t = named.drop_first();
        lemma_not_named(t, name);
        assert forall|i: int| 0 <= i < named.len() implies (#[trigger] named[i]).0 != name by {
            if i > 0 {
                assert(named[i] == t[i - 1]);
            }
        }
    }
}

proof fn lemma_header(st: ReadModel, line: nat, s: Seq<char>)
    requires
        reading_ok(st),
        header_step(st, line, s) is Ok,
    ensures
        reading_ok(header_step(st, line, s)->Ok_0),
{
    let after = header_step(st, line, s)->Ok_0;
    let store = after.named.last().0;
    lemma_not_named(st.named, store);
    assert(name_problem(store, line) is None);
    assert(names_a_store(store));
    match st.open {
        Some(prev) => {
            assert(names_a_store(st.named[st.named.len() - 1].0));
            lemma_filed(st.entries, prev, st.defaults);
        },
        None => {},
    }
    assert forall|i: int| 0 <= i < after.entries.len() implies (#[trigger] after.entries[i]).store
        == after.named[i].0 by {
        if i < st.entries.len() {
            assert(after.entries[i] == st.entries[i]);
            assert(after.named[i] == st.named[i]);
        }
    }
    assert forall|i: int| 0 <= i < after.named.len() implies names_a_store(
        (#[trigger] after.named[i]).0,
    ) by {
        if i < st.named.len() {
            assert(after.named[i] == st.named[i]);
        }
    }
    assert forall|i: int, j: int| 0 <= i < j < after.named.len() implies (
    #[trigger] after.named[i]).0 != (#[trigger] after.named[j]).0 by {
        assert(after.named[i] == st.named[i]);
        if j < st.named.len() {
            assert(after.named[j] == st.named[j]);
        }
    }
}

proof fn lemma_key(st: ReadModel, line: nat, s: Seq<char>)
    requires
        reading_ok(st),
        key_step(st, line, s) is Ok,
    ensures
        reading_ok(key_step(st, line, s)->Ok_0),
{
    let parts = split_once(s, '=')->Some_0;
    let key = trim(parts.0);
    let value = trim(parts.1);
    match st.open {
        None => {
            lemma_stated(st.defaults, line, key, value);
        },
        Some(section) => {
            if key != "SOURCE"@ {
                lemma_stated(section.own, line, key, value);
            }
        },
    }
}

proof fn lemma_read(ls: Seq<Seq<char>>, n: nat)
    requires
        read_lines(ls, n) is Ok,
    ensures
        reading_ok(read_lines(ls, n)->Ok_0),
    decreases n,
{
    if n > 0 {
        lemma_read(ls, (n - 1) as nat);
        let st = read_lines(ls, (n - 1) as nat)->Ok_0;
        let s = trim(ls[n - 1]);
        if s.len() == 0 || s[0] == '#' {
        } else if s[0] == '[' {
            lemma_header(st, n, s);
        } else {
            lemma_key(st, n, s);
        }
    }
}

/// A set that was accepted follows something, and everything in it is what
/// it must be: each source an absolute path, each store a name that can be a
/// directory and a handle, no file followed into two stores, and no store
/// named twice.
pub proof fn an_accepted_set_follows_distinct_files_into_distinct_stores(s: Seq<char>)
    requires
        declared(s) is Ok,
    ensures
        declared(s)->Ok_0.len() > 0,
        entries_ok(declared(s)->Ok_0),
        forall|i: int, j: int|
            0 <= i < j < declared(s)->Ok_0.len() ==> (#[trigger] declared(s)->Ok_0[i]).store != (
            #[trigger] declared(s)->Ok_0[j]).store,
{
    let ls = lines(s);
    lemma_read(ls, ls.len());
    let st = read_lines(ls, ls.len())->Ok_0;
    let es = declared(s)->Ok_0;
    match st.open {
        Some(last) => {
            assert(names_a_store(st.named[st.named.len() - 1].0));
            lemma_filed(st.entries, last, st.defaults);
            assert(es.len() == st.named.len());
        },
        None => {},
    }
    assert forall|i: int, j: int| 0 <= i < j < es.len() implies (#[trigger] es[i]).store != (
    #[trigger] es[j]).store by {
        assert(es[i].store == st.named[i].0) by {
            if i < st.entries.len() {
                assert(es[i] == st.entries[i]);
            }
        }
        assert(es[j].store == st.named[j].0) by {
            if j < st.entries.len() {
                assert(es[j] == st.entries[j]);
            }
        }
    }
}

/// Blank lines and comments declare nothing.
pub proof fn comments_and_blank_lines_declare_nothing(st: ReadModel, line: nat, raw: Seq<char>)
    requires
        trim(raw).len() == 0 || trim(raw)[0] == '#',
    ensures
        line_step(st, line, raw) == Ok::<ReadModel, Problem>(st),
{
}

/// A section that states a key replaces the preamble's value wholly; one that
/// does not inherits it.
pub proof fn a_section_replaces_what_it_states(s: SectionModel, source: Seq<char>, d: SettingsModel)
    ensures
        s.own.declare is Some ==> entry_of(s, source, d).declare == s.own.declare->Some_0,
        s.own.declare is None && d.declare is Some ==> entry_of(s, source, d).declare
            == d.declare->Some_0,
        s.own.poll_ms is Some ==> entry_of(s, source, d).poll_ms == s.own.poll_ms->Some_0,
        s.own.poll_ms is None && d.poll_ms is Some ==> entry_of(s, source, d).poll_ms
            == d.poll_ms->Some_0,
        s.own.poll_ms is None && d.poll_ms is None ==> entry_of(s, source, d).poll_ms == 1_000,
        s.own.declare is None && d.declare is None ==> entry_of(s, source, d).declare.len() == 0,
        s.own.flush_age_ms is Some ==> entry_of(s, source, d).flush_age_ms
            == s.own.flush_age_ms->Some_0,
        s.own.flush_age_ms is None && d.flush_age_ms is Some ==> entry_of(
            s,
            source,
            d,
        ).flush_age_ms == d.flush_age_ms->Some_0,
        s.own.flush_age_ms is None && d.flush_age_ms is None ==> entry_of(
            s,
            source,
            d,
        ).flush_age_ms == 60_000,
        s.own.dir is Some ==> entry_of(s, source, d).store_dir == s.own.dir->Some_0,
        s.own.dir is None && d.dir is Some ==> entry_of(s, source, d).store_dir == d.dir->Some_0,
        s.own.dir is None && d.dir is None ==> entry_of(s, source, d).store_dir
            == "/var/log/timberfs"@,
        s.own.rotated is Some ==> entry_of(s, source, d).rotated == s.own.rotated->Some_0,
        s.own.rotated is None && d.rotated is Some ==> entry_of(s, source, d).rotated
            == d.rotated->Some_0,
        s.own.rotated is None && d.rotated is None ==> entry_of(s, source, d).rotated.len() == 0,
        entry_of(s, source, d).store == s.store,
        entry_of(s, source, d).source == source,
{
}

} // verus!
