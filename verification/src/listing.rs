//! The names of a directory, as far as they say which of its files are read.

use crate::order::{in_order, ordered};
use crate::text::{chars_of, spells, text, text_of, texts};
use vstd::prelude::*;
use vstd::slice::slice_subrange;

verus! {

/// Where the last dot of a name stands; below zero where it has none.
pub open spec fn last_dot(name: Seq<char>) -> int
    decreases name.len(),
{
    if name.len() == 0 {
        -1
    } else if name.last() == '.' {
        name.len() - 1
    } else {
        last_dot(name.drop_last())
    }
}

/// What stands behind the last dot of a file's name. A dot at its beginning
/// hides the file and starts no extension.
pub open spec fn extension(name: Seq<char>) -> Option<Seq<char>> {
    let k = last_dot(name);
    if k <= 0 || name == ".."@ {
        None
    } else {
        Some(name.skip(k + 1))
    }
}

/// A file's name without its extension.
pub open spec fn stem(name: Seq<char>) -> Seq<char> {
    if extension(name) is Some {
        name.take(last_dot(name))
    } else {
        name
    }
}

proof fn lemma_last_dot(name: Seq<char>)
    ensures
        -1 <= last_dot(name) < name.len(),
    decreases name.len(),
{
    if name.len() > 0 && name.last() != '.' {
        lemma_last_dot(name.drop_last());
    }
}

/// How long a name is before its extension, where it has one.
fn dot_of(v: &[char]) -> (r: Option<usize>)
    ensures
        match r {
            Some(k) => extension(v@) is Some && k == last_dot(v@) && k < v@.len(),
            None => extension(v@) is None,
        },
{
    let mut n: usize = v.len();
    proof {
        assert(v@.take(n as int) =~= v@);
        lemma_last_dot(v@);
    }
    while n > 0 && v[n - 1] != '.'
        invariant
            n <= v@.len(),
            last_dot(v@.take(n as int)) == last_dot(v@),
        decreases n,
    {
        assert(v@.take(n as int).drop_last() =~= v@.take(n - 1));
        n = n - 1;
    }
    if n <= 1 || spells(v, "..") {
        None
    } else {
        Some(n - 1)
    }
}

/// A file's name without its extension.
pub fn stem_of(name: &str) -> (r: String)
    ensures
        r@ == stem(name@),
{
    let cs = chars_of(name);
    match dot_of(cs.as_slice()) {
        Some(k) => {
            let s: &[char] = slice_subrange(cs.as_slice(), 0, k);
            assert(s@ =~= name@.take(k as int));
            text_of(s)
        },
        None => text_of(cs.as_slice()),
    }
}

fn has_extension(name: &str, ext: &str) -> (r: bool)
    ensures
        r == (extension(name@) == Some(ext@)),
{
    let cs = chars_of(name);
    let n: usize = cs.len();
    match dot_of(cs.as_slice()) {
        Some(k) => {
            let s: &[char] = slice_subrange(cs.as_slice(), k + 1, n);
            assert(s@ =~= name@.skip(k + 1));
            spells(s, ext)
        },
        None => false,
    }
}

fn files_by(names: &Vec<String>, ext: &str, wanted: bool) -> (r: Vec<String>)
    ensures
        ordered(texts(r@)),
        forall|t: Seq<char>| #[trigger]
            texts(r@).contains(t) <==> texts(names@).contains(t) && (extension(t) == Some(ext@))
                == wanted,
{
    let ghost all = texts(names@);
    let mut some: Vec<String> = Vec::new();
    let mut i: usize = 0;
    while i < names.len()
        invariant
            i <= names@.len(),
            all == texts(names@),
            forall|t: Seq<char>| #[trigger]
                texts(some@).contains(t) <==> all.take(i as int).contains(t) && (extension(t)
                    == Some(ext@)) == wanted,
        decreases names@.len() - i,
    {
        let name = text(names[i].as_str());
        let ghost was = texts(some@);
        let ghost x = name@;
        let take = has_extension(name.as_str(), ext) == wanted;
        if take {
            some.push(name);
        }
        proof {
            let now = texts(some@);
            let next = all.take(i + 1);
            assert(all[i as int] == x);
            assert(next =~= all.take(i as int).push(x));
            assert(take ==> now =~= was.push(x));
            assert forall|t: Seq<char>| #[trigger]
                now.contains(t) <==> next.contains(t) && (extension(t) == Some(ext@)) == wanted by {
                lemma_contains_push(was, x, t);
                lemma_contains_push(all.take(i as int), x, t);
            }
        }
        i = i + 1;
    }
    proof {
        assert(all.take(i as int) =~= all);
    }
    in_order(&some)
}

proof fn lemma_contains_push(v: Seq<Seq<char>>, x: Seq<char>, t: Seq<char>)
    ensures
        v.push(x).contains(t) <==> v.contains(t) || t == x,
{
    if v.contains(t) {
        let i = choose|i: int| 0 <= i < v.len() && v[i] == t;
        assert(v.push(x)[i] == t);
    }
    assert(v.push(x)[v.len() as int] == x);
}

/// The files of a directory that declare forests, in the order in which they
/// are read, which is the order in which the forests are searched.
pub fn conf_files(names: &Vec<String>) -> (r: Vec<String>)
    ensures
        ordered(texts(r@)),
        forall|t: Seq<char>| #[trigger]
            texts(r@).contains(t) <==> texts(names@).contains(t) && extension(t) == Some(
                "conf"@,
            ),
{
    files_by(names, "conf", true)
}

/// The files of a directory that may hold a cursor, in order. What a save in
/// flight has written so far is none.
pub fn cursor_files(names: &Vec<String>) -> (r: Vec<String>)
    ensures
        ordered(texts(r@)),
        forall|t: Seq<char>| #[trigger]
            texts(r@).contains(t) <==> texts(names@).contains(t) && extension(t) != Some("tmp"@),
{
    files_by(names, "tmp", false)
}

} // verus!
