//! File names as text, joined the way a Unix path is.

use crate::text::{
    char_texts, chars_of, parts_of, same_chars, spells, split_on, text, text_of,
};
use vstd::prelude::*;
use vstd::slice::slice_to_vec;
use vstd::string::{StrSliceExecFns, StringExecFns};

verus! {

/// Whether a path starts at the root.
pub open spec fn is_absolute(p: Seq<char>) -> bool {
    p.len() > 0 && p[0] == '/'
}

/// A path below a directory: an absolute path stands for itself, and a
/// separator goes between where the directory does not end in one.
pub open spec fn join(dir: Seq<char>, name: Seq<char>) -> Seq<char> {
    if is_absolute(name) {
        name
    } else if dir.len() == 0 || dir.last() == '/' {
        dir + name
    } else {
        dir + "/"@ + name
    }
}

/// Whether a path starts at the root.
pub fn absolute(p: &str) -> (r: bool)
    ensures
        r == is_absolute(p@),
{
    p.unicode_len() > 0 && p.get_char(0) == '/'
}

/// A path below a directory.
pub fn joined_path(dir: &str, name: &str) -> (r: String)
    ensures
        r@ == join(dir@, name@),
{
    if absolute(name) {
        return text(name);
    }
    let n: usize = dir.unicode_len();
    if n == 0 || dir.get_char(n - 1) == '/' {
        text(dir).concat(name)
    } else {
        text(dir).concat("/").concat(name)
    }
}

// --------------------------------------------------------------- components

/// Whether the part at `i` of a path names anything: an empty part never
/// does, and a dot only at the start of a relative path.
pub open spec fn part_counts(part: Seq<char>, i: int) -> bool {
    part.len() > 0 && (part != "."@ || i == 0)
}

/// The first `n` parts that name something.
pub open spec fn counted(parts: Seq<Seq<char>>, n: int) -> Seq<Seq<char>>
    decreases n,
{
    if n <= 0 {
        Seq::empty()
    } else if part_counts(parts[n - 1], n - 1) {
        counted(parts, n - 1).push(parts[n - 1])
    } else {
        counted(parts, n - 1)
    }
}

/// The components of a path: the root where it starts there, then what its
/// parts name. Two paths are the same path where their components are.
pub open spec fn components(p: Seq<char>) -> Seq<Seq<char>> {
    let parts = split_on(p, '/');
    let named = counted(parts, parts.len() as int);
    if is_absolute(p) {
        seq!["/"@] + named
    } else {
        named
    }
}

/// Whether two texts are the same path.
pub open spec fn same_path(a: Seq<char>, b: Seq<char>) -> bool {
    components(a) == components(b)
}

/// Whether a path is another, or lies below it.
pub open spec fn path_within(inner: Seq<char>, outer: Seq<char>) -> bool {
    let a = components(inner);
    let b = components(outer);
    b.len() <= a.len() && a.take(b.len() as int) == b
}

/// The last component of a path, where it names a file or a directory.
pub open spec fn file_name(p: Seq<char>) -> Option<Seq<char>> {
    let c = components(p);
    if c.len() == 0 || c.last() == "/"@ || c.last() == ".."@ || c.last() == "."@ {
        None
    } else {
        Some(c.last())
    }
}

/// The components of a path.
pub fn components_of(p: &[char]) -> (r: Vec<Vec<char>>)
    ensures
        char_texts(r@) == components(p@),
{
    let parts = parts_of(p, '/');
    let ghost all = split_on(p@, '/');
    let mut r: Vec<Vec<char>> = Vec::new();
    let ghost root: Seq<Seq<char>> = if is_absolute(p@) {
        seq!["/"@]
    } else {
        Seq::empty()
    };
    if p.len() > 0 && p[0] == '/' {
        r.push(chars_of("/"));
    }
    assert(char_texts(r@) =~= root + counted(all, 0));
    let mut i: usize = 0;
    while i < parts.len()
        invariant
            i <= parts@.len(),
            all == char_texts(parts@),
            char_texts(r@) == root + counted(all, i as int),
        decreases parts@.len() - i,
    {
        let part: &[char] = parts[i].as_slice();
        assert(all[i as int] == part@);
        if part.len() > 0 && (i == 0 || !spells(part, ".")) {
            let copy: Vec<char> = slice_to_vec(part);
            proof {
                assert(char_texts(r@.push(copy)) =~= char_texts(r@).push(copy@));
                assert(char_texts(r@).push(copy@) =~= root + counted(all, i as int).push(copy@));
            }
            r.push(copy);
        }
        i = i + 1;
    }
    assert(char_texts(r@) =~= components(p@));
    r
}

fn same_parts(a: &Vec<Vec<char>>, b: &Vec<Vec<char>>, n: usize) -> (r: bool)
    requires
        n <= a@.len(),
        n <= b@.len(),
    ensures
        r == (char_texts(a@).take(n as int) == char_texts(b@).take(n as int)),
{
    let mut i: usize = 0;
    while i < n
        invariant
            i <= n,
            n <= a@.len(),
            n <= b@.len(),
            forall|j: int| 0 <= j < i ==> #[trigger] a@[j]@ == b@[j]@,
        decreases n - i,
    {
        if !same_chars(a[i].as_slice(), b[i].as_slice()) {
            proof {
                let x = char_texts(a@).take(n as int);
                let y = char_texts(b@).take(n as int);
                assert(x[i as int] == a@[i as int]@ && y[i as int] == b@[i as int]@);
            }
            return false;
        }
        i = i + 1;
    }
    assert(char_texts(a@).take(n as int) =~= char_texts(b@).take(n as int));
    true
}

/// Whether two texts are the same path.
pub fn same_paths(a: &str, b: &str) -> (r: bool)
    ensures
        r == same_path(a@, b@),
{
    let x = components_of(chars_of(a).as_slice());
    let y = components_of(chars_of(b).as_slice());
    if x.len() != y.len() {
        assert(char_texts(x@).len() != char_texts(y@).len());
        return false;
    }
    assert(char_texts(x@).take(x@.len() as int) =~= char_texts(x@));
    assert(char_texts(y@).take(x@.len() as int) =~= char_texts(y@));
    same_parts(&x, &y, x.len())
}

/// Whether a path is another, or lies below it.
pub fn within(inner: &str, outer: &str) -> (r: bool)
    ensures
        r == path_within(inner@, outer@),
{
    let x = components_of(chars_of(inner).as_slice());
    let y = components_of(chars_of(outer).as_slice());
    assert(char_texts(x@).len() == x@.len() && char_texts(y@).len() == y@.len());
    if y.len() > x.len() {
        return false;
    }
    assert(char_texts(y@).take(y@.len() as int) =~= char_texts(y@));
    same_parts(&x, &y, y.len())
}

/// The last component of a path, where it names a file or a directory.
pub fn file_name_of(p: &str) -> (r: Option<String>)
    ensures
        match r {
            Some(name) => file_name(p@) == Some(name@),
            None => file_name(p@) is None,
        },
{
    let c = components_of(chars_of(p).as_slice());
    assert(char_texts(c@).len() == c@.len());
    if c.len() == 0 {
        return None;
    }
    let last: &[char] = c[c.len() - 1].as_slice();
    assert(char_texts(c@).last() == last@);
    if spells(last, "/") || spells(last, "..") || spells(last, ".") {
        None
    } else {
        Some(text_of(last))
    }
}

// -------------------------------------------------------------------- order

/// What a component is ordered by: the root, then the dots, then names.
pub open spec fn component_key(c: Seq<char>) -> Seq<char> {
    if c == "/"@ {
        seq!['0']
    } else if c == "."@ {
        seq!['1']
    } else if c == ".."@ {
        seq!['2']
    } else {
        seq!['3'] + c
    }
}

/// What the first `n` components are ordered by, each ended by a character
/// that is before every other and stands in no path.
pub open spec fn components_key(cs: Seq<Seq<char>>, n: int) -> Seq<char>
    decreases n,
{
    if n <= 0 {
        Seq::empty()
    } else {
        components_key(cs, n - 1) + component_key(cs[n - 1]).push('\0')
    }
}

/// What a path is ordered by: its components, one after the other.
pub open spec fn path_key(p: Seq<char>) -> Seq<char> {
    let cs = components(p);
    components_key(cs, cs.len() as int)
}

/// What a path is ordered by.
pub fn path_key_of(p: &str) -> (r: String)
    ensures
        r@ == path_key(p@),
{
    let cs = components_of(chars_of(p).as_slice());
    let ghost all = components(p@);
    let mut r = String::new();
    let mut i: usize = 0;
    assert(r@ =~= components_key(all, 0));
    while i < cs.len()
        invariant
            i <= cs@.len(),
            all == char_texts(cs@),
            r@ == components_key(all, i as int),
        decreases cs@.len() - i,
    {
        let c: &[char] = cs[i].as_slice();
        let ghost was = r@;
        assert(all[i as int] == c@);
        let mut key: Vec<char> = Vec::new();
        if spells(c, "/") {
            key.push('0');
        } else if spells(c, ".") {
            key.push('1');
        } else if spells(c, "..") {
            key.push('2');
        } else {
            key.push('3');
            key.extend_from_slice(c);
        }
        assert(key@ =~= component_key(c@));
        r.append(text_of(key.as_slice()).as_str());
        r.push('\0');
        assert(r@ =~= was + component_key(c@).push('\0'));
        i = i + 1;
    }
    r
}

} // verus!
