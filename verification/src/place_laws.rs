//! What finding stores, naming forests and keeping files by name comes to.

use crate::forest::{
    anchored_keys, answers, first_anchored, hits, id_shaped, lemma_first_anchored, logical_handle,
    looked_up, paths_for, rings_handle, Anchored, By, Forest, ForestModel, ForestProblem, Scanned,
};
use crate::forests::{
    dir_declared, first_odd, forest_dir, forest_named, is_name, name_outcome, named_by_path,
    names_width, nesting, one_dir, padded_left, padded_right, trim_slashes, NameError, Nesting,
    Place,
};
use crate::fs::{
    asked, lemma_named, named, renamed, rotation, sound, without, write_allowed, xattr_of, Asked,
    FileFacts, InodeModel,
};
use crate::measure::lower;
use crate::order::{before, is_order_of};
use crate::paths::{components, path_key, path_within};
use crate::text::{
    decimal, ends_with, lemma_decimal, lemma_find_is, lines, split_on, split_once, starts_with,
    trim,
};
use vstd::prelude::*;
use vstd::utf8::encode_utf8;

verus! {

// ------------------------------------------------------------------- stores

/// A store is handled by its name without the ending of a log, whatever ending
/// that leaves; and the file beside it that says which chunks there are is the
/// store's whose name it has before its own ending.
pub proof fn a_store_is_handled_without_its_ending(name: Seq<char>)
    ensures
        logical_handle(name + ".log"@) == name,
        !ends_with(name, ".log"@) ==> logical_handle(name) == name,
        rings_handle(name + ".rings"@) == Some(logical_handle(name)),
        !ends_with(name, ".rings"@) ==> rings_handle(name) is None,
{
    crate::text_laws::what_is_taken_off_is_what_was_put_on(".log"@, name, name);
    crate::text_laws::what_is_taken_off_is_what_was_put_on(".rings"@, name, name);
}

/// A store answers to its handle, to the name it declares, and to the start of
/// its identity in either case.
pub proof fn a_store_answers_to_what_it_is_called(s: Scanned, token: Seq<char>)
    ensures
        answers(s, By::Handle, token) <==> s.handle@ == token,
        answers(s, By::Name, token) <==> s.declared is Some && s.declared->Some_0@ == token,
        answers(s, By::Id, token) <==> s.id is Some && token.len() <= s.id->Some_0@.len()
            && s.id->Some_0@.take(token.len() as int) == lower(token),
        id_shaped(token) ==> token.len() >= 4,
        id_shaped(token) <==> token.len() >= 4 && forall|i: int|
            0 <= i < token.len() ==> {
                ||| '0' <= #[trigger] token[i] <= '9'
                ||| 'a' <= token[i] <= 'f'
                ||| 'A' <= token[i] <= 'F'
                ||| token[i] == '-'
            },
{
    assert(lower(token).len() == token.len());
}

/// Whether no store answers.
pub open spec fn none_answers(stores: Seq<Scanned>, by: By, token: Seq<char>) -> bool {
    forall|i: int| 0 <= i < stores.len() ==> !answers(#[trigger] stores[i], by, token)
}

/// Whether one store answers and no other does.
pub open spec fn only_answer(stores: Seq<Scanned>, by: By, token: Seq<char>, i: int) -> bool {
    0 <= i < stores.len() && answers(stores[i], by, token) && forall|j: int|
        0 <= j < stores.len() && j != i ==> !answers(#[trigger] stores[j], by, token)
}

/// Whether two stores answer.
pub open spec fn two_answer(
    stores: Seq<Scanned>,
    by: By,
    token: Seq<char>,
    i: int,
    j: int,
) -> bool {
    0 <= i < j < stores.len() && answers(stores[i], by, token) && answers(stores[j], by, token)
}

proof fn lemma_hits_are(stores: Seq<Scanned>, by: By, token: Seq<char>, n: int)
    requires
        0 <= n <= stores.len(),
    ensures
        forall|i: int|
            hits(stores, by, token, n).contains(i) <==> 0 <= i < n && answers(
                stores[i],
                by,
                token,
            ),
        hits(stores, by, token, n).no_duplicates(),
    decreases n,
{
    if n > 0 {
        lemma_hits_are(stores, by, token, n - 1);
        let h = hits(stores, by, token, n - 1);
        assert forall|i: int| hits(stores, by, token, n).contains(i) <==> 0 <= i < n && answers(
            stores[i],
            by,
            token,
        ) by {
            if answers(stores[n - 1], by, token) {
                let g = h.push(n - 1);
                assert(g[h.len() as int] == n - 1);
                if h.contains(i) {
                    let k = choose|k: int| 0 <= k < h.len() && h[k] == i;
                    assert(g[k] == i);
                }
                if g.contains(i) && i != n - 1 {
                    let k = choose|k: int| 0 <= k < g.len() && g[k] == i;
                    assert(h[k] == i);
                }
            }
        }
        if answers(stores[n - 1], by, token) {
            let g = hits(stores, by, token, n);
            assert forall|a: int, b: int|
                0 <= a < g.len() && 0 <= b < g.len() && a != b implies g[a] != g[b] by {
                if a < h.len() {
                    assert(h.contains(h[a]));
                }
                if b < h.len() {
                    assert(h.contains(h[b]));
                }
            }
        }
    }
}

proof fn lemma_counted(stores: Seq<Scanned>, by: By, token: Seq<char>, i: int, j: int)
    ensures
        none_answers(stores, by, token) ==> hits(stores, by, token, stores.len() as int).len()
            == 0,
        only_answer(stores, by, token, i) ==> hits(stores, by, token, stores.len() as int) == seq![
            i,
        ],
        two_answer(stores, by, token, i, j) ==> hits(stores, by, token, stores.len() as int).len()
            > 1,
{
    lemma_hits_are(stores, by, token, stores.len() as int);
    let h = hits(stores, by, token, stores.len() as int);
    if none_answers(stores, by, token) && h.len() > 0 {
        assert(h.contains(h[0]));
    }
    if only_answer(stores, by, token, i) {
        assert(h.contains(i));
        assert forall|k: int| 0 <= k < h.len() implies h[k] == i by {
            assert(h.contains(h[k]));
            assert(answers(stores[h[k]], by, token));
        }
        if h.len() > 1 {
            assert(h[0] != h[1]);
        }
        assert(h =~= seq![i]);
    }
    if two_answer(stores, by, token, i, j) {
        assert(h.contains(i) && h.contains(j));
        let a = choose|a: int| 0 <= a < h.len() && h[a] == i;
        let b = choose|b: int| 0 <= b < h.len() && h[b] == j;
        assert(a != b);
    }
}

/// A store is found where it alone answers: by its handle; by the name that it
/// declares, where no handle answers; by its identity, where neither does and
/// what was asked for can be the start of one. Where two answer at the first of
/// these at which any does, or none answers at all, nothing is found.
pub proof fn a_store_is_found_where_it_alone_answers(
    token: Seq<char>,
    stores: Seq<Scanned>,
    forests: Seq<Forest>,
    conf: Seq<char>,
    i: int,
    j: int,
)
    ensures
        ({
            let r = looked_up(token, stores, forests, conf);
            let no_handle = none_answers(stores, By::Handle, token);
            let no_name = no_handle && none_answers(stores, By::Name, token);
            &&& only_answer(stores, By::Handle, token, i) ==> r == Ok::<
                Seq<char>,
                ForestProblem,
            >(stores[i].path@)
            &&& two_answer(stores, By::Handle, token, i, j) ==> r is Err
                && r->Err_0 is AmbiguousHandle
            &&& no_handle && only_answer(stores, By::Name, token, i) ==> r == Ok::<
                Seq<char>,
                ForestProblem,
            >(stores[i].path@)
            &&& no_handle && two_answer(stores, By::Name, token, i, j) ==> r is Err
                && r->Err_0 is AmbiguousName
            &&& no_name && id_shaped(token) && only_answer(stores, By::Id, token, i) ==> r == Ok::<
                Seq<char>,
                ForestProblem,
            >(stores[i].path@)
            &&& no_name && id_shaped(token) && two_answer(stores, By::Id, token, i, j) ==> r is Err
                && r->Err_0 is AmbiguousId
            &&& no_name && (!id_shaped(token) || none_answers(stores, By::Id, token)) ==> r is Err
                && (r->Err_0 is NoForests <==> forests.len() == 0) && (r->Err_0 is NoStore
                <==> forests.len() > 0)
        }),
{
    lemma_counted(stores, By::Handle, token, i, j);
    lemma_counted(stores, By::Name, token, i, j);
    lemma_counted(stores, By::Id, token, i, j);
}

// ------------------------------------------------------------------ forests

/// Whether a line declares a directory: not a comment, and a value under that
/// name.
pub open spec fn declares_dir(line: Seq<char>) -> bool {
    let s = trim(line);
    s.len() > 0 && s[0] != '#' && split_once(s, '=') is Some && trim(split_once(s, '=')->Some_0.0)
        == "DIR"@
}

/// A forest's directory is what the last line that declares one says, and there
/// is none where no line does or that line says nothing.
pub proof fn the_last_declared_directory_stands(contents: Seq<char>, i: int)
    ensures
        ({
            let ls = lines(contents);
            let d = trim(split_once(trim(ls[i]), '=')->Some_0.1);
            &&& 0 <= i < ls.len() && declares_dir(ls[i]) && (forall|j: int|
                i < j < ls.len() ==> !declares_dir(#[trigger] ls[j])) ==> forest_dir(contents) == (
            if d.len() > 0 {
                Some(d)
            } else {
                None
            })
            &&& (forall|j: int| 0 <= j < ls.len() ==> !declares_dir(#[trigger] ls[j]))
                ==> forest_dir(contents) is None
        }),
{
    let ls = lines(contents);
    lemma_declared(ls, ls.len() as int, i);
}

proof fn lemma_declared(ls: Seq<Seq<char>>, n: int, i: int)
    requires
        0 <= n <= ls.len(),
    ensures
        0 <= i < n && declares_dir(ls[i]) && (forall|j: int|
            i < j < n ==> !declares_dir(#[trigger] ls[j])) ==> dir_declared(ls, n) == Some(
            trim(split_once(trim(ls[i]), '=')->Some_0.1),
        ),
        (forall|j: int| 0 <= j < n ==> !declares_dir(#[trigger] ls[j])) ==> dir_declared(ls, n)
            is None,
    decreases n,
{
    if n > 0 {
        lemma_declared(ls, n - 1, i);
        if i < n - 1 && (forall|j: int| i < j < n ==> !declares_dir(#[trigger] ls[j])) {
            assert(!declares_dir(ls[n - 1]));
        }
        if forall|j: int| 0 <= j < n ==> !declares_dir(#[trigger] ls[j]) {
            assert(!declares_dir(ls[n - 1]));
        }
    }
}

/// A list of directories names each of them by itself, and an empty part names
/// none.
pub proof fn each_directory_of_a_list_names_itself(
    parts: Seq<Seq<char>>,
    n: int,
    f: ForestModel,
)
    requires
        0 <= n <= parts.len(),
    ensures
        named_by_path(parts, n).contains(f) <==> f.name == f.dir && f.name.len() > 0 && exists|
            i: int,
        |
            0 <= i < n && #[trigger] parts[i] == f.name,
    decreases n,
{
    if n > 0 {
        each_directory_of_a_list_names_itself(parts, n - 1, f);
        let front = named_by_path(parts, n - 1);
        let x = ForestModel { name: parts[n - 1], dir: parts[n - 1] };
        if parts[n - 1].len() > 0 {
            let all = front.push(x);
            assert(all[front.len() as int] == x);
            if front.contains(f) {
                let k = choose|k: int| 0 <= k < front.len() && front[k] == f;
                assert(all[k] == f);
            }
            if all.contains(f) && f != x {
                let k = choose|k: int| 0 <= k < all.len() && all[k] == f;
                assert(front[k] == f);
            }
        }
    }
}

/// A name is of letters, digits and `_.-`, at most 64 bytes, does not look like
/// a flag and is no place; and what is no name is refused.
pub proof fn a_name_is_of_letters_digits_and_few_marks(s: Seq<char>)
    ensures
        is_name(s) <==> {
            &&& 0 < s.len()
            &&& encode_utf8(s).len() <= 64
            &&& s != "."@ && s != ".."@
            &&& s[0] != '-'
            &&& forall|i: int|
                0 <= i < s.len() ==> {
                    ||| '0' <= #[trigger] s[i] <= '9'
                    ||| 'A' <= s[i] <= 'Z'
                    ||| 'a' <= s[i] <= 'z'
                    ||| s[i] == '_'
                    ||| s[i] == '.'
                    ||| s[i] == '-'
                }
        },
{
    lemma_odd(s);
}

/// The outcome of checking a name is that it is one, or an error, and never
/// both.
pub proof fn a_name_is_taken_or_refused(name: &str, r: Result<(), NameError>)
    requires
        name_outcome(name, r),
    ensures
        r is Ok <==> is_name(name@),
        r is Err && r->Err_0 is BadChar ==> name@.contains(r->Err_0->BadChar_1)
            && !crate::forests::name_char(r->Err_0->BadChar_1),
{
    lemma_odd(name@);
    if first_odd(name@) < name@.len() {
        assert(name@.contains(name@[first_odd(name@)]));
    }
}

proof fn lemma_odd(s: Seq<char>)
    ensures
        0 <= first_odd(s) <= s.len(),
        forall|i: int|
            0 <= i < first_odd(s) ==> crate::forests::name_char(#[trigger] s[i]),
        first_odd(s) < s.len() ==> !crate::forests::name_char(s[first_odd(s)]),
    decreases s.len(),
{
    if s.len() > 0 && crate::forests::name_char(s[0]) {
        let t = s.drop_first();
        lemma_odd(t);
        assert forall|i: int| 0 <= i < first_odd(s) implies crate::forests::name_char(
            #[trigger] s[i],
        ) by {
            if i > 0 {
                assert(s[i] == t[i - 1]);
            }
        }
    }
}

/// Separators at the end of a path are taken off, all of them and nothing else.
pub proof fn separators_at_the_end_are_taken_off(p: Seq<char>)
    ensures
        trim_slashes(p).len() <= p.len(),
        p.take(trim_slashes(p).len() as int) == trim_slashes(p),
        forall|i: int| trim_slashes(p).len() <= i < p.len() ==> #[trigger] p[i] == '/',
        trim_slashes(p).len() > 0 ==> trim_slashes(p).last() != '/',
    decreases p.len(),
{
    if p.len() > 0 && p.last() == '/' {
        let front = p.drop_last();
        separators_at_the_end_are_taken_off(front);
        assert(p.take(trim_slashes(p).len() as int) =~= front.take(trim_slashes(p).len() as int));
        assert forall|i: int| trim_slashes(p).len() <= i < p.len() implies #[trigger] p[i]
            == '/' by {
            if i < front.len() {
                assert(front[i] == p[i]);
            }
        }
    } else {
        assert(p.take(p.len() as int) =~= p);
    }
}

/// Two places are one or nested whichever of them is asked of the other: what
/// lies in a place has the place around it, and a place lies in itself.
pub proof fn nesting_goes_both_ways(a: Place, b: Place)
    ensures
        one_dir(a, a),
        one_dir(a, b) == one_dir(b, a),
        nesting(a, a) == Some(Nesting::Inside),
        nesting(a, b) is Some <==> nesting(b, a) is Some,
        nesting(a, b) == Some(Nesting::Contains) ==> nesting(b, a) == Some(Nesting::Inside),
        a.canonical is Some && b.canonical is Some ==> (nesting(a, b) == Some(Nesting::Inside)
            <==> path_within(b.canonical->Some_0@, a.canonical->Some_0@)),
{
    let x = components(crate::forests::located(a));
    assert(x.take(x.len() as int) =~= x);
}

/// A column is as wide as the longest name in it, and never narrower than its
/// heading; what is padded is filled up with spaces and never cut.
pub proof fn a_column_is_as_wide_as_its_longest_name(
    forests: Seq<Forest>,
    n: int,
    s: Seq<char>,
    width: nat,
)
    requires
        0 <= n <= forests.len(),
    ensures
        names_width(forests, n) >= 6,
        forall|i: int|
            0 <= i < n ==> encode_utf8((#[trigger] forests[i]).name@).len() <= names_width(
                forests,
                n,
            ),
        names_width(forests, n) > 6 ==> exists|i: int|
            0 <= i < n && encode_utf8((#[trigger] forests[i]).name@).len() == names_width(
                forests,
                n,
            ),
        padded_right(s, width).len() >= width && padded_left(s, width).len() >= width,
        padded_right(s, width).take(s.len() as int) == s,
        padded_left(s, width).skip(padded_left(s, width).len() - s.len()) == s,
        s.len() >= width ==> padded_right(s, width) == s && padded_left(s, width) == s,
        s.len() < width ==> padded_right(s, width).len() == width && padded_left(s, width).len()
            == width,
    decreases n,
{
    assert(padded_right(s, width).take(s.len() as int) =~= s);
    assert(padded_left(s, width).skip(padded_left(s, width).len() - s.len()) =~= s);
    if n > 0 {
        a_column_is_as_wide_as_its_longest_name(forests, n - 1, s, width);
        if names_width(forests, n - 1) > 6 {
            let i = choose|i: int|
                0 <= i < n - 1 && encode_utf8((#[trigger] forests[i]).name@).len() == names_width(
                    forests,
                    n - 1,
                );
            assert(encode_utf8(forests[i].name@).len() == names_width(forests, n - 1));
        }
        assert(encode_utf8(forests[n - 1].name@).len() <= names_width(forests, n));
    }
}

// -------------------------------------------------------------------- files

/// A rotation into a file, or away, is asked for by a cutoff and one of the two,
/// in either order.
pub proof fn a_rotation_is_asked_for(n: nat, target: Seq<char>)
    requires
        n <= u64::MAX,
        target.len() > 0,
        !target.contains('/'),
        !target.contains(';'),
    ensures
        rotation("cutoff="@ + decimal(n) + seq![';'] + "delete"@) == Some(
            (n, None::<Seq<char>>),
        ),
        rotation("delete"@ + seq![';'] + ("cutoff="@ + decimal(n))) == Some(
            (n, None::<Seq<char>>),
        ),
        rotation("cutoff="@ + decimal(n) + seq![';'] + ("target="@ + target)) == Some(
            (n, Some(target)),
        ),
        rotation("cutoff="@ + decimal(n)) is None,
        rotation("delete"@) is None,
        rotation("target="@ + target) is None,
{
    reveal_strlit("cutoff=");
    reveal_strlit("target=");
    reveal_strlit("delete");
    let c = "cutoff="@ + decimal(n);
    let d = "delete"@;
    let t = "target="@ + target;
    lemma_decimal(n);
    crate::text::lemma_decimal_round_trip(n, u64::MAX as nat);
    assert(!c.contains(';')) by {
        if c.contains(';') {
            let i = choose|i: int| 0 <= i < c.len() && c[i] == ';';
            if i >= 7 {
                assert(c[i] == decimal(n)[i - 7]);
                assert(crate::text::is_digit(decimal(n)[i - 7]));
            } else {
                assert(c[i] == "cutoff="@[i]);
            }
        }
    }
    assert(!d.contains(';')) by {
        if d.contains(';') {
            let i = choose|i: int| 0 <= i < d.len() && d[i] == ';';
            assert(d[i] == "delete"@[i]);
        }
    }
    assert(!t.contains(';')) by {
        if t.contains(';') {
            let i = choose|i: int| 0 <= i < t.len() && t[i] == ';';
            if i >= 7 {
                assert(target[i - 7] == ';');
                assert(target.contains(';'));
            } else {
                assert(t[i] == "target="@[i]);
            }
        }
    }
    lemma_two_parts(c, d);
    lemma_two_parts(d, c);
    lemma_two_parts(c, t);
    lemma_one_part(c);
    lemma_one_part(d);
    lemma_one_part(t);
    let none = Asked { cutoff: None, target: None, delete: false };
    assert(c.take(7) =~= "cutoff="@);
    assert(c.skip(7) =~= decimal(n));
    assert(t.take(7) =~= "target="@);
    assert(t.skip(7) =~= target);
    assert("cutoff="@[0] == 'c' && "target="@[0] == 't' && "delete"@.len() == 6);
    assert(t.take(7)[0] != "cutoff="@[0]);
    reveal_with_fuel(asked, 3);
    assert(asked(Seq::empty()) == Some(none));
    assert(seq![c].drop_last() =~= Seq::empty());
    assert(seq![d].drop_last() =~= Seq::empty());
    assert(seq![t].drop_last() =~= Seq::empty());
    assert(seq![c, d].drop_last() =~= seq![c]);
    assert(seq![d, c].drop_last() =~= seq![d]);
    assert(seq![c, t].drop_last() =~= seq![c]);
}

proof fn lemma_one_part(a: Seq<char>)
    requires
        !a.contains(';'),
    ensures
        split_on(a, ';') == seq![a],
{
    assert forall|i: int| 0 <= i < a.len() implies a[i] != ';' by {
        assert(a.contains(a[i]));
    }
    lemma_find_is(a, ';', a.len() as int);
}

proof fn lemma_two_parts(a: Seq<char>, b: Seq<char>)
    requires
        !a.contains(';'),
        !b.contains(';'),
    ensures
        split_on(a + seq![';'] + b, ';') == seq![a, b],
{
    let s = a + seq![';'] + b;
    lemma_one_part(b);
    assert forall|i: int| 0 <= i < a.len() implies s[i] != ';' by {
        assert(s[i] == a[i]);
        assert(a.contains(a[i]));
    }
    assert(s[a.len() as int] == ';');
    lemma_find_is(s, ';', a.len() as int);
    assert(s.take(a.len() as int) =~= a);
    assert(s.skip(a.len() as int + 1) =~= b);
    assert(seq![a] + seq![b] =~= seq![a, b]);
}

/// Whatever is asked for, a rotation that is granted has a cutoff, and a target
/// that is a name in the directory exactly where nothing is deleted.
pub proof fn a_granted_rotation_makes_sense(s: Seq<char>)
    ensures
        rotation(s) is Some ==> rotation(s)->Some_0.0 <= u64::MAX && (rotation(s)->Some_0.1 is Some
            ==> rotation(s)->Some_0.1->Some_0.len() > 0 && !rotation(
            s,
        )->Some_0.1->Some_0.contains('/')),
        rotation(s) is Some ==> (rotation(s)->Some_0.1 is None <==> split_on(s, ';').contains(
            "delete"@,
        )),
{
    lemma_asked(split_on(s, ';'));
}

proof fn lemma_asked(parts: Seq<Seq<char>>)
    ensures
        asked(parts) is Some ==> {
            let a = asked(parts)->Some_0;
            &&& a.cutoff is Some ==> a.cutoff->Some_0 <= u64::MAX
            &&& a.target is Some ==> a.target->Some_0.len() > 0 && !a.target->Some_0.contains('/')
            &&& a.delete <==> parts.contains("delete"@)
        },
    decreases parts.len(),
{
    if parts.len() > 0 {
        let front = parts.drop_last();
        lemma_asked(front);
        reveal_strlit("cutoff=");
        reveal_strlit("target=");
        reveal_strlit("delete");
        assert("cutoff="@.len() == 7 && "target="@.len() == 7 && "delete"@.len() == 6);
        let d = "delete"@;
        assert(front.push(parts.last()) =~= parts);
        assert(parts.contains(d) <==> front.contains(d) || parts.last() == d) by {
            if front.contains(d) {
                let i = choose|i: int| 0 <= i < front.len() && front[i] == d;
                assert(parts[i] == d);
            }
            if parts.last() == d {
                assert(parts[parts.len() - 1] == d);
            }
            if parts.contains(d) && parts.last() != d {
                let i = choose|i: int| 0 <= i < parts.len() && parts[i] == d;
                assert(front[i] == d);
            }
        }
        if asked(parts) is Some {
            let v = parts.last();
            assert(starts_with(v, "cutoff="@) || starts_with(v, "target="@) ==> v != d);
        }
    }
}

/// A write goes through exactly where it adds to the end: it was opened to, or
/// it starts there.
pub proof fn a_write_goes_to_the_end(append: bool, offset: i64, size: u64)
    ensures
        write_allowed(append, offset, size) is Ok <==> append || offset as int == size as int,
{
}

/// Each attribute says its own fact, and no other attribute is there.
pub proof fn each_attribute_says_its_own_fact(key: Seq<char>, f: FileFacts)
    ensures
        xattr_of("user.timberfs.chunks"@, f) == Some(decimal(f.chunks as nat)),
        xattr_of("user.timberfs.compressed_size"@, f) == Some(decimal(f.comp_size as nat)),
        f.first_write is Some ==> xattr_of("user.timberfs.first_write"@, f) == Some(
            f.first_write->Some_0@,
        ),
        f.first_write is None ==> xattr_of("user.timberfs.first_write"@, f) is None,
        f.last_write is Some ==> xattr_of("user.timberfs.last_write"@, f) == Some(
            f.last_write->Some_0@,
        ),
        f.last_write is None ==> xattr_of("user.timberfs.last_write"@, f) is None,
        xattr_of(key, f) is Some ==> key == "user.timberfs.chunks"@ || key
            == "user.timberfs.compressed_size"@ || key == "user.timberfs.first_write"@ || key
            == "user.timberfs.last_write"@,
{
    reveal_strlit("user.timberfs.chunks");
    reveal_strlit("user.timberfs.compressed_size");
    reveal_strlit("user.timberfs.first_write");
    reveal_strlit("user.timberfs.last_write");
    assert("user.timberfs.chunks"@.len() == 20 && "user.timberfs.compressed_size"@.len() == 29
        && "user.timberfs.first_write"@.len() == 25 && "user.timberfs.last_write"@.len() == 24);
}

/// Taking a file out takes out the one of that name and leaves every other.
pub proof fn taking_a_file_out_leaves_every_other(
    v: Seq<InodeModel>,
    next: u64,
    name: Seq<char>,
    f: InodeModel,
)
    requires
        sound(v, next),
    ensures
        without(v, name).contains(f) <==> v.contains(f) && f.name != name,
{
    lemma_named(v, name, 0);
    let k = named(v, name, 0);
    let w = without(v, name);
    if k < v.len() {
        assert forall|i: int| 0 <= i < v.len() && i != k implies (#[trigger] v[i]).name != name by {
            if i > k {
                assert(v[k].name != v[i].name);
            }
        }
        if w.contains(f) {
            let i = choose|i: int| 0 <= i < w.len() && w[i] == f;
            assert(v[if i < k {
                i
            } else {
                i + 1
            }] == f);
        }
        if v.contains(f) && f.name != name {
            let i = choose|i: int| 0 <= i < v.len() && v[i] == f;
            assert(w[if i < k {
                i
            } else {
                i - 1
            }] == f);
        }
    } else if v.contains(f) {
        let i = choose|i: int| 0 <= i < v.len() && v[i] == f;
        assert(v[i].name != name);
    }
}

/// Every store of an anchor is found, and no other store is: each path once, in
/// the order of the paths.
pub proof fn every_store_of_an_anchor_is_found(
    stores: Seq<Anchored>,
    anchor: Seq<char>,
    keys: Seq<Seq<char>>,
)
    requires
        is_order_of(keys, anchored_keys(stores, anchor, stores.len() as int)),
    ensures
        ({
            let found = paths_for(stores, anchor, keys);
            &&& forall|i: int| 0 <= i < found.len()
                ==> anchored_at(stores, anchor, #[trigger] found[i])
            &&& forall|j: int|
                0 <= j < stores.len() && (#[trigger] stores[j]).anchor@ == anchor ==> exists|i: int|
                    0 <= i < found.len() && path_key(#[trigger] found[i]) == path_key(
                        stores[j].path@,
                    )
            &&& forall|i: int, j: int|
                0 <= i < j < found.len() ==> before(
                    path_key(#[trigger] found[i]),
                    path_key(#[trigger] found[j]),
                )
        }),
{
    let n = stores.len() as int;
    let all = anchored_keys(stores, anchor, n);
    let found = paths_for(stores, anchor, keys);
    assert forall|i: int| 0 <= i < found.len() implies #[trigger] path_key(found[i]) == keys[i]
        && anchored_at(stores, anchor, found[i]) by {
        assert(keys.contains(keys[i]));
        lemma_first_anchored(stores, anchor, keys[i], n);
        let k = first_anchored(stores, anchor, keys[i]);
        assert(stores[k].anchor@ == anchor);
    }
    assert forall|i: int| 0 <= i < found.len() implies anchored_at(
        stores,
        anchor,
        #[trigger] found[i],
    ) by {
        assert(path_key(found[i]) == keys[i]);
    }
    assert forall|j: int|
        0 <= j < stores.len() && (#[trigger] stores[j]).anchor@ == anchor implies exists|i: int|
        0 <= i < found.len() && path_key(#[trigger] found[i]) == path_key(stores[j].path@) by {
        lemma_key_of(stores, anchor, n, j);
        let key = path_key(stores[j].path@);
        assert(keys.contains(key));
        let i = choose|i: int| 0 <= i < keys.len() && keys[i] == key;
        assert(path_key(found[i]) == keys[i]);
    }
    assert forall|i: int, j: int| 0 <= i < j < found.len() implies before(
        path_key(#[trigger] found[i]),
        path_key(#[trigger] found[j]),
    ) by {
        assert(path_key(found[i]) == keys[i] && path_key(found[j]) == keys[j]);
        assert(before(keys[i], keys[j]));
    }
}

/// Whether a store of the anchor stands at a path.
pub open spec fn anchored_at(stores: Seq<Anchored>, anchor: Seq<char>, path: Seq<char>) -> bool {
    exists|j: int|
        0 <= j < stores.len() && (#[trigger] stores[j]).anchor@ == anchor && stores[j].path@
            == path
}

proof fn lemma_key_of(stores: Seq<Anchored>, anchor: Seq<char>, n: int, j: int)
    requires
        0 <= j < n <= stores.len(),
        stores[j].anchor@ == anchor,
    ensures
        anchored_keys(stores, anchor, n).contains(path_key(stores[j].path@)),
    decreases n,
{
    let front = anchored_keys(stores, anchor, n - 1);
    let x = path_key(stores[n - 1].path@);
    if j < n - 1 {
        lemma_key_of(stores, anchor, n - 1, j);
    }
    crate::lists::lemma_push(front, x, path_key(stores[j].path@));
}

/// A forest is found by its name: the first that has it.
pub proof fn a_forest_is_found_by_its_name(forests: Seq<Forest>, name: Seq<char>)
    ensures
        0 <= forest_named(forests, name) <= forests.len(),
        forest_named(forests, name) < forests.len() ==> forests[forest_named(
            forests,
            name,
        )].name@ == name,
        forall|i: int|
            0 <= i < forest_named(forests, name) ==> (#[trigger] forests[i]).name@ != name,
    decreases forests.len(),
{
    if forests.len() > 0 && forests[0].name@ != name {
        let t = forests.drop_first();
        a_forest_is_found_by_its_name(t, name);
        assert forall|i: int| 0 <= i < forest_named(forests, name) implies (
        #[trigger] forests[i]).name@ != name by {
            if i > 0 {
                assert(forests[i] == t[i - 1]);
            }
        }
    }
}

/// A renamed file has its new name and no longer its old one, and takes the
/// place of whatever had that name.
pub proof fn a_rename_takes_the_place(
    v: Seq<InodeModel>,
    next: u64,
    from: Seq<char>,
    to: Seq<char>,
    i: int,
)
    requires
        sound(v, next),
        from != to,
        0 <= i < v.len(),
        v[i].name == from,
    ensures
        renamed(v, from, to).contains((InodeModel { ino: v[i].ino, name: to })),
        forall|j: int|
            0 <= j < renamed(v, from, to).len() ==> (#[trigger] renamed(v, from, to)[j]).name
                != from,
        forall|f: InodeModel|
            f.name == to && f.ino != v[i].ino ==> !(#[trigger] renamed(v, from, to).contains(f)),
        forall|f: InodeModel|
            f.name != to && f.name != from ==> (#[trigger] renamed(v, from, to).contains(f)
                <==> v.contains(f)),
{
    let rest = without(v, to);
    let w = renamed(v, from, to);
    assert forall|f: InodeModel| rest.contains(f) <==> v.contains(f) && f.name != to by {
        taking_a_file_out_leaves_every_other(v, next, to, f);
    }
    assert(v.contains(v[i]));
    assert(rest.contains(v[i]));
    lemma_named(rest, from, 0);
    let k = named(rest, from, 0);
    let a = choose|a: int| 0 <= a < rest.len() && rest[a] == v[i];
    assert(k < rest.len());
    assert(rest.contains(rest[k]));
    let b = choose|b: int| 0 <= b < v.len() && v[b] == rest[k];
    assert(v[b].name == v[i].name);
    assert(b == i) by {
        if b < i {
            assert(v[b].name != v[i].name);
        } else if i < b {
            assert(v[i].name != v[b].name);
        }
    }
    assert(w[k] == (InodeModel { ino: v[i].ino, name: to }));
    assert forall|j: int| 0 <= j < rest.len() && j != k implies (#[trigger] rest[j]).name != from
        && rest[j].name != to by {
        assert(rest.contains(rest[j]));
        if rest[j].name == from {
            let c = choose|c: int| 0 <= c < v.len() && v[c] == rest[j];
            assert(c == i) by {
                if c < i {
                    assert(v[c].name != v[i].name);
                } else if i < c {
                    assert(v[i].name != v[c].name);
                }
            }
            lemma_apart(v, next, to, j, k);
        }
    }
    assert forall|j: int| 0 <= j < w.len() implies (#[trigger] w[j]).name != from by {
        if j != k {
            assert(w[j] == rest[j]);
        }
    }
    assert forall|f: InodeModel| f.name == to && f.ino != v[i].ino implies !(
    #[trigger] w.contains(f)) by {
        if w.contains(f) {
            let j = choose|j: int| 0 <= j < w.len() && w[j] == f;
            if j != k {
                assert(rest[j].name != to);
            }
        }
    }
    assert forall|f: InodeModel| f.name != to && f.name != from implies (#[trigger] w.contains(f)
        <==> v.contains(f)) by {
        if w.contains(f) {
            let j = choose|j: int| 0 <= j < w.len() && w[j] == f;
            assert(rest[j] == f);
            assert(rest.contains(f));
        }
        if v.contains(f) {
            assert(rest.contains(f));
            let j = choose|j: int| 0 <= j < rest.len() && rest[j] == f;
            assert(w[j] == f);
        }
    }
}

/// What is left has every file once.
proof fn lemma_apart(v: Seq<InodeModel>, next: u64, name: Seq<char>, i: int, j: int)
    requires
        sound(v, next),
        0 <= i < without(v, name).len(),
        0 <= j < without(v, name).len(),
        i != j,
    ensures
        without(v, name)[i] != without(v, name)[j],
{
    let k = named(v, name, 0);
    lemma_named(v, name, 0);
    let a = if k < v.len() && i >= k {
        i + 1
    } else {
        i
    };
    let b = if k < v.len() && j >= k {
        j + 1
    } else {
        j
    };
    assert(without(v, name)[i] == v[a] && without(v, name)[j] == v[b]);
    if a < b {
        assert(v[a].ino != v[b].ino);
    } else {
        assert(v[b].ino != v[a].ino);
    }
}

} // verus!
