//! What holds of declared forests whatever is declared.

use crate::forests::{
    declaration_said, declare_outcome, first_at, first_nesting, first_with_name, forest_dir, nesting,
    one_dir, Declared, DeclareError, DeclareStep, Place,
};
use crate::text::{find, is_space, lemma_find, lemma_find_is, lines, split_once, trim, without_cr};
use vstd::prelude::*;

verus! {

proof fn lemma_first_with_name(v: Seq<Declared>, name: Seq<char>)
    ensures
        0 <= first_with_name(v, name) <= v.len(),
        forall|i: int|
            0 <= i < first_with_name(v, name) ==> (#[trigger] v[i]).name@ != name,
    decreases v.len(),
{
    if v.len() > 0 && v[0].name@ != name {
        lemma_first_with_name(v.drop_first(), name);
        assert forall|i: int| 0 <= i < first_with_name(v, name) implies (#[trigger] v[i]).name@
            != name by {
            if i > 0 {
                assert(v[i] == v.drop_first()[i - 1]);
            }
        }
    }
}

proof fn lemma_first_at(v: Seq<Declared>, place: Place)
    ensures
        0 <= first_at(v, place) <= v.len(),
        forall|i: int| 0 <= i < first_at(v, place) ==> !one_dir((#[trigger] v[i]).place, place),
    decreases v.len(),
{
    if v.len() > 0 && !one_dir(v[0].place, place) {
        lemma_first_at(v.drop_first(), place);
        assert forall|i: int| 0 <= i < first_at(v, place) implies !one_dir(
            (#[trigger] v[i]).place,
            place,
        ) by {
            if i > 0 {
                assert(v[i] == v.drop_first()[i - 1]);
            }
        }
    }
}

proof fn lemma_first_nesting(v: Seq<Declared>, place: Place)
    ensures
        0 <= first_nesting(v, place) <= v.len(),
        forall|i: int|
            0 <= i < first_nesting(v, place) ==> nesting((#[trigger] v[i]).place, place) is None,
    decreases v.len(),
{
    if v.len() > 0 && nesting(v[0].place, place) is None {
        lemma_first_nesting(v.drop_first(), place);
        assert forall|i: int| 0 <= i < first_nesting(v, place) implies nesting(
            (#[trigger] v[i]).place,
            place,
        ) is None by {
            if i > 0 {
                assert(v[i] == v.drop_first()[i - 1]);
            }
        }
    }
}

/// A forest that is newly declared stands apart from every other: its name is
/// its own, its directory is no other's, and neither lies inside the other, so
/// that no store is found twice.
pub proof fn a_declared_forest_stands_apart(
    name: Seq<char>,
    place: Place,
    existing: Seq<Declared>,
)
    requires
        declare_outcome(
            name,
            place,
            existing,
            Ok::<DeclareStep, DeclareError>(DeclareStep::Declare),
        ),
    ensures
        forall|i: int|
            0 <= i < existing.len() ==> {
                &&& (#[trigger] existing[i]).name@ != name
                &&& !one_dir(existing[i].place, place)
                &&& nesting(existing[i].place, place) is None
            },
{
    lemma_first_with_name(existing, name);
    lemma_first_at(existing, place);
    lemma_first_nesting(existing, place);
}

proof fn lemma_name_after(v: Seq<Declared>, d: Declared)
    requires
        first_with_name(v, d.name@) == v.len(),
    ensures
        first_with_name(v.push(d), d.name@) == v.len(),
    decreases v.len(),
{
    if v.len() > 0 {
        lemma_first_with_name(v.drop_first(), d.name@);
        lemma_name_after(v.drop_first(), d);
        assert(v.push(d).drop_first() =~= v.drop_first().push(d));
    }
}

/// Declaring a forest again, where it was declared before, changes nothing.
pub proof fn declaring_twice_is_declaring_once(existing: Seq<Declared>, d: Declared)
    requires
        declare_outcome(
            d.name@,
            d.place,
            existing,
            Ok::<DeclareStep, DeclareError>(DeclareStep::Declare),
        ),
    ensures
        declare_outcome(
            d.name@,
            d.place,
            existing.push(d),
            Ok::<DeclareStep, DeclareError>(DeclareStep::AlreadyThere),
        ),
{
    lemma_first_with_name(existing, d.name@);
    lemma_name_after(existing, d);
    assert(existing.push(d)[existing.len() as int] == d);
}

proof fn lemma_last_line(p: Seq<char>, l: Seq<char>)
    requires
        l.len() > 0,
        l.last() != '\r',
        forall|i: int| 0 <= i < l.len() ==> l[i] != '\n',
    ensures
        lines(p + l.push('\n')).len() > 0,
        p.len() == 0 || p.last() == '\n' ==> lines(p + l.push('\n')).last() == l,
    decreases p.len(),
{
    let s = p + l.push('\n');
    let k = find(p, '\n');
    lemma_find(p, '\n');
    if p.len() == 0 {
        assert(s =~= l.push('\n'));
        assert forall|i: int| 0 <= i < l.len() implies s[i] != '\n' by {
            assert(s[i] == l[i]);
        }
        lemma_find_is(s, '\n', l.len() as int);
        assert(s.take(l.len() as int) =~= l);
        assert(without_cr(l) == l);
        assert(s.skip(l.len() as int + 1) =~= Seq::empty());
        assert(lines(s.skip(l.len() as int + 1)).len() == 0);
        assert(lines(s) =~= seq![l]);
    } else if k < p.len() {
        assert forall|i: int| 0 <= i < k implies s[i] != '\n' by {
            assert(s[i] == p[i]);
        }
        lemma_find_is(s, '\n', k);
        let rest = p.skip(k + 1);
        assert(s.skip(k + 1) =~= rest + l.push('\n'));
        lemma_last_line(rest, l);
        assert(p.last() == '\n' && rest.len() > 0 ==> rest.last() == '\n');
        let tail = lines(s.skip(k + 1));
        assert(lines(s) == seq![without_cr(s.take(k))] + tail);
        assert(lines(s).last() == tail.last());
    } else {
        assert(p.last() != '\n') by {
            assert(p[p.len() - 1] != '\n');
        }
        lemma_find(s, '\n');
    }
}

/// What is written to declare a forest reads back as its directory. A
/// directory whose path begins or ends with white space, or that holds a line
/// feed, has no form in the file.
pub proof fn a_written_declaration_reads_back(name: Seq<char>, dir: Seq<char>)
    requires
        dir.len() > 0,
        !is_space(dir[0]),
        !is_space(dir.last()),
        forall|i: int| 0 <= i < dir.len() ==> dir[i] != '\n',
    ensures
        forest_dir(declaration_said(name, dir)) == Some(dir),
{
    reveal_strlit("` — the directory stores under it live in.\n# Declared by `timberfs forest create`; `timberfs forest list` shows it.\nDIR=");
    reveal_strlit("\n");
    reveal_strlit("DIR");
    let head = "# timberfs forest `"@ + name
        + "` — the directory stores under it live in.\n# Declared by `timberfs forest create`; `timberfs forest list` shows it.\nDIR="@;
    let all = declaration_said(name, dir);
    let n = head.len() - 4;
    let p = head.take(n);
    let l = "DIR"@.push('=') + dir;
    assert(head.skip(n) =~= "DIR"@.push('='));
    assert(p.last() == '\n');
    assert(all =~= p + l.push('\n'));
    assert forall|i: int| 0 <= i < l.len() implies l[i] != '\n' by {
        if i >= 4 {
            assert(l[i] == dir[i - 4]);
        }
    }
    assert(l.last() == dir.last());
    lemma_last_line(p, l);
    let ls = lines(all);
    assert(ls[ls.len() - 1] == l);
    assert(trim(l) == l) by {
        assert(!is_space(l[0]));
        assert(!is_space(l.last()));
    }
    lemma_find_is(l, '=', 3);
    assert(l.take(3) =~= "DIR"@);
    assert(l.skip(4) =~= dir);
    assert(split_once(l, '=') == Some(("DIR"@, dir)));
    assert(trim("DIR"@) == "DIR"@);
    assert(trim(dir) == dir);
}

} // verus!
