//! What cutting texts and paths apart and putting them together comes to.

use crate::append::upper;
use crate::follower::handle_at;
use crate::measure::lower;
use crate::paths::{
    component_key, components, components_key, counted, file_name, is_absolute, join, path_key,
    path_within, same_path,
};
use crate::text::{
    decimal, digit_char, ends_with, find, hex_char, hex_number, hex_padded, is_digit, is_space,
    joined, lemma_decimal, lemma_find, lemma_find_is, lines, parsed, split_on, split_once,
    starts_with, strip_prefix, strip_suffix, trim, trim_end, trim_start, without_cr, word_end,
    words,
};
use vstd::prelude::*;

verus! {

/// Whether a text is all white space.
pub open spec fn blank(s: Seq<char>) -> bool {
    forall|i: int| 0 <= i < s.len() ==> is_space(#[trigger] s[i])
}

/// Whether a text has white space at neither end.
pub open spec fn tight(s: Seq<char>) -> bool {
    s.len() > 0 ==> !is_space(s[0]) && !is_space(s.last())
}

proof fn lemma_trim_start(s: Seq<char>) -> (a: Seq<char>)
    ensures
        s == a + trim_start(s),
        blank(a),
        trim_start(s).len() > 0 ==> !is_space(trim_start(s)[0]),
    decreases s.len(),
{
    if s.len() > 0 && is_space(s[0]) {
        let t = lemma_trim_start(s.drop_first());
        let a = seq![s[0]] + t;
        assert(s =~= seq![s[0]] + s.drop_first());
        assert(s =~= a + trim_start(s));
        assert forall|i: int| 0 <= i < a.len() implies is_space(#[trigger] a[i]) by {
            if i > 0 {
                assert(a[i] == t[i - 1]);
            }
        }
        a
    } else {
        assert(s =~= Seq::empty() + s);
        Seq::empty()
    }
}

proof fn lemma_trim_end(s: Seq<char>) -> (b: Seq<char>)
    ensures
        s == trim_end(s) + b,
        blank(b),
        trim_end(s).len() > 0 ==> !is_space(trim_end(s).last()),
    decreases s.len(),
{
    if s.len() > 0 && is_space(s.last()) {
        let t = lemma_trim_end(s.drop_last());
        let b = t.push(s.last());
        assert(s =~= s.drop_last().push(s.last()));
        assert(s =~= trim_end(s) + b);
        assert forall|i: int| 0 <= i < b.len() implies is_space(#[trigger] b[i]) by {
            if i < t.len() {
                assert(b[i] == t[i]);
            }
        }
        b
    } else {
        assert(s =~= s + Seq::empty());
        Seq::empty()
    }
}

/// Trimming takes white space off both ends, all of it, and nothing else.
pub proof fn trimming_takes_off_white_space_alone(s: Seq<char>) -> (ends: (Seq<char>, Seq<char>))
    ensures
        s == ends.0 + trim(s) + ends.1,
        blank(ends.0),
        blank(ends.1),
        tight(trim(s)),
{
    let a = lemma_trim_start(s);
    let t = trim_start(s);
    let b = lemma_trim_end(t);
    assert(s =~= a + trim(s) + b);
    if trim(s).len() > 0 {
        assert(trim(s)[0] == t[0]);
    }
    (a, b)
}

/// White space is what Unicode calls so: among the ASCII characters the space
/// and those from the tab to the carriage return.
pub proof fn white_space_is_what_it_is_called(c: char)
    ensures
        c == ' ' || c == '\t' || c == '\n' || c == '\r' ==> is_space(c),
        is_space(c) && (c as u32) < 0x80 ==> c == ' ' || 9 <= c as u32 <= 13,
        9 <= c as u32 <= 13 ==> is_space(c),
{
}

/// A text splits at every separator and nowhere else: the parts hold none, and
/// put together again with the separator between them they are the text.
pub proof fn a_text_splits_at_every_separator(s: Seq<char>, c: char)
    ensures
        split_on(s, c).len() > 0,
        forall|i: int| 0 <= i < split_on(s, c).len()
            ==> !(#[trigger] split_on(s, c)[i]).contains(c),
        joined(split_on(s, c), seq![c]) == s,
    decreases s.len(),
{
    lemma_find(s, c);
    let k = find(s, c);
    let parts = split_on(s, c);
    if k < s.len() {
        let rest = s.skip(k + 1);
        a_text_splits_at_every_separator(rest, c);
        let tail = split_on(rest, c);
        assert(parts =~= seq![s.take(k)] + tail);
        assert forall|i: int| 0 <= i < parts.len() implies !(#[trigger] parts[i]).contains(c) by {
            if i > 0 {
                assert(parts[i] == tail[i - 1]);
            } else if parts[0].contains(c) {
                let j = choose|j: int| 0 <= j < parts[0].len() && parts[0][j] == c;
                assert(s[j] == c);
            }
        }
        lemma_joined_front(s.take(k), tail, seq![c]);
        assert(s =~= s.take(k) + seq![c] + rest);
    } else {
        assert(parts =~= seq![s]);
        if s.contains(c) {
            let j = choose|j: int| 0 <= j < s.len() && s[j] == c;
            assert(s[j] != c);
        }
    }
}

proof fn lemma_joined_front(first: Seq<char>, rest: Seq<Seq<char>>, sep: Seq<char>)
    requires
        rest.len() > 0,
    ensures
        joined(seq![first] + rest, sep) == first + sep + joined(rest, sep),
    decreases rest.len(),
{
    let all = seq![first] + rest;
    assert(all.last() == rest.last());
    if rest.len() == 1 {
        assert(all.drop_last() =~= seq![first]);
        assert(rest =~= seq![rest[0]]);
        assert(joined(seq![first], sep) == first);
    } else {
        let front = rest.drop_last();
        lemma_joined_front(first, front, sep);
        assert(all.drop_last() =~= seq![first] + front);
        assert(joined(all, sep) =~= first + sep + joined(rest, sep));
    }
}

/// A text is cut at the first separator: what stands before it and all that
/// stands behind it; a text without one is not cut.
pub proof fn a_text_is_cut_at_the_first_separator(a: Seq<char>, c: char, b: Seq<char>)
    requires
        !a.contains(c),
    ensures
        split_once(a + seq![c] + b, c) == Some((a, b)),
        split_once(a, c) is None,
{
    let s = a + seq![c] + b;
    assert forall|i: int| 0 <= i < a.len() implies s[i] != c && a[i] != c by {
        assert(s[i] == a[i]);
        assert(a.contains(a[i]));
    }
    assert(s[a.len() as int] == c);
    lemma_find_is(s, c, a.len() as int);
    lemma_find_is(a, c, a.len() as int);
    assert(s.take(a.len() as int) =~= a);
    assert(s.skip(a.len() as int + 1) =~= b);
}

/// A line ends at the first line feed, which it does not hold, nor a carriage
/// return right before it; what is left behind the last line feed is a line
/// where it is not empty, as it stands.
pub proof fn a_line_ends_at_the_first_line_feed(a: Seq<char>, rest: Seq<char>)
    requires
        !a.contains('\n'),
    ensures
        a.len() > 0 ==> lines(a) == seq![a],
        lines(Seq::empty()) == Seq::<Seq<char>>::empty(),
        (a.len() == 0 || a.last() != '\r') ==> lines(a + seq!['\n'] + rest) == seq![a] + lines(
            rest,
        ),
        lines(a + seq!['\r', '\n'] + rest) == seq![a] + lines(rest),
{
    lemma_line(a, rest);
    let x = a.push('\r');
    assert(!x.contains('\n')) by {
        if x.contains('\n') {
            let i = choose|i: int| 0 <= i < x.len() && x[i] == '\n';
            assert(a[i] == '\n');
            assert(a.contains('\n'));
        }
    }
    lemma_line(x, rest);
    assert(x + seq!['\n'] + rest =~= a + seq!['\r', '\n'] + rest);
    assert(without_cr(x) =~= a);
    if a.len() > 0 {
        assert forall|i: int| 0 <= i < a.len() implies a[i] != '\n' by {
            assert(a.contains(a[i]));
        }
        lemma_find_is(a, '\n', a.len() as int);
    }
}

proof fn lemma_line(a: Seq<char>, rest: Seq<char>)
    requires
        !a.contains('\n'),
    ensures
        lines(a + seq!['\n'] + rest) == seq![without_cr(a)] + lines(rest),
{
    let s = a + seq!['\n'] + rest;
    assert forall|i: int| 0 <= i < a.len() implies s[i] != '\n' by {
        assert(s[i] == a[i]);
        assert(a.contains(a[i]));
    }
    assert(s[a.len() as int] == '\n');
    lemma_find_is(s, '\n', a.len() as int);
    assert(s.take(a.len() as int) =~= a);
    assert(s.skip(a.len() as int + 1) =~= rest);
}

/// A word is what stands between white space, as long as it goes on, and white
/// space is no part of one.
pub proof fn words_stand_between_white_space(w: Seq<char>, space: char, rest: Seq<char>)
    requires
        w.len() > 0,
        forall|i: int| 0 <= i < w.len() ==> !is_space(#[trigger] w[i]),
        is_space(space),
    ensures
        words(w) == seq![w],
        words(w + seq![space] + rest) == seq![w] + words(rest),
        words(seq![space] + rest) == words(rest),
{
    reveal_with_fuel(words, 2);
    assert(w.take(w.len() as int) =~= w);
    lemma_word_end(w, w);
    assert(trim_start(w) == w);
    assert(w.skip(w.len() as int) =~= Seq::empty());
    assert(words(Seq::empty()) =~= Seq::empty());
    assert(words(w) =~= seq![w]);
    let s = w + seq![space] + rest;
    assert(s[0] == w[0]);
    assert(trim_start(s) == s);
    assert(s.take(w.len() as int) =~= w);
    lemma_word_end(s, w);
    assert(s.skip(w.len() as int) =~= seq![space] + rest);
    lemma_words_skip(space, rest);
}

proof fn lemma_words_skip(space: char, rest: Seq<char>)
    requires
        is_space(space),
    ensures
        words(seq![space] + rest) == words(rest),
{
    let s = seq![space] + rest;
    assert(s.drop_first() =~= rest);
    assert(trim_start(s) == trim_start(rest));
    let a = lemma_trim_start(rest);
    assert(trim_start(rest).len() <= rest.len());
}

proof fn lemma_word_end(s: Seq<char>, w: Seq<char>)
    requires
        w.len() <= s.len(),
        s.take(w.len() as int) == w,
        forall|i: int| 0 <= i < w.len() ==> !is_space(#[trigger] w[i]),
        w.len() < s.len() ==> is_space(s[w.len() as int]),
    ensures
        word_end(s) == w.len(),
    decreases w.len(),
{
    if w.len() > 0 {
        let t = s.drop_first();
        let v = w.drop_first();
        assert(s[0] == s.take(w.len() as int)[0]);
        assert(!is_space(w[0]));
        assert(t.take(v.len() as int) =~= v) by {
            assert forall|i: int| 0 <= i < v.len() implies t[i] == v[i] by {
                assert(s[i + 1] == s.take(w.len() as int)[i + 1]);
            }
        }
        assert forall|i: int| 0 <= i < v.len() implies !is_space(#[trigger] v[i]) by {
            assert(!is_space(w[i + 1]));
        }
        lemma_word_end(t, v);
    }
}

/// A text starts with whatever it goes on from, and what it goes on with is
/// what is left when that is taken off; and so at its end.
pub proof fn what_is_taken_off_is_what_was_put_on(p: Seq<char>, t: Seq<char>, s: Seq<char>)
    ensures
        starts_with(p + t, p),
        strip_prefix(p + t, p) == Some(t),
        starts_with(s, p) ==> s == p + s.skip(p.len() as int),
        strip_prefix(s, p) is Some <==> starts_with(s, p),
        ends_with(t + p, p),
        strip_suffix(t + p, p) == Some(t),
        ends_with(s, p) ==> s == s.take(s.len() - p.len()) + p,
        strip_suffix(s, p) is Some <==> ends_with(s, p),
{
    assert((p + t).take(p.len() as int) =~= p);
    assert((p + t).skip(p.len() as int) =~= t);
    assert((t + p).skip(t.len() as int) =~= p);
    assert((t + p).take(t.len() as int) =~= t);
    if starts_with(s, p) {
        assert(s =~= p + s.skip(p.len() as int));
    }
    if ends_with(s, p) {
        assert(s =~= s.take(s.len() - p.len()) + p);
    }
}

/// A number is spelled digit by digit, the greatest first, with none to spare;
/// it is read back from its digits, with a plus sign before them or without,
/// and from nothing else, as long as it is not above the limit.
pub proof fn a_number_is_spelled_and_read_back(n: nat, d: nat, max: nat)
    requires
        n > 0,
        d < 10,
    ensures
        decimal(d) == seq![digit_char(d)],
        decimal(10 * n + d) == decimal(n).push(digit_char(d)),
        decimal(n)[0] != '0',
        digit_char(0) == '0' && digit_char(1) == '1' && digit_char(9) == '9',
        n <= max ==> parsed(decimal(n), max) == Some(n) && parsed(seq!['+'] + decimal(n), max)
            == Some(n),
        n > max ==> parsed(decimal(n), max) is None && parsed(seq!['+'] + decimal(n), max) is None,
        parsed(seq!['-'] + decimal(n), max) is None,
        parsed(Seq::empty(), max) is None,
        parsed(seq!['+'], max) is None,
{
    lemma_decimal(n);
    lemma_no_leading_zero(n);
    assert((10 * n + d) / 10 == n && (10 * n + d) % 10 == d);
    assert(is_digit(decimal(n)[0]));
    assert((seq!['+'] + decimal(n)).drop_first() =~= decimal(n));
    let m = seq!['-'] + decimal(n);
    assert(m[0] == '-');
    assert(!is_digit(m[0]));
    assert(seq!['+'].drop_first().len() == 0);
}

proof fn lemma_no_leading_zero(n: nat)
    requires
        n > 0,
    ensures
        decimal(n).len() > 0,
        decimal(n)[0] != '0',
    decreases n,
{
    if n >= 10 {
        lemma_no_leading_zero(n / 10);
        assert(decimal(n)[0] == decimal(n / 10)[0]);
    } else {
        assert(digit_char(n) as u32 == '0' as u32 + n);
    }
}

// -------------------------------------------------------------------- paths

proof fn lemma_split_push(s: Seq<char>, c: char, name: Seq<char>)
    requires
        !name.contains(c),
    ensures
        split_on(s + seq![c] + name, c) == split_on(s, c).push(name),
    decreases s.len(),
{
    lemma_find(s, c);
    let k = find(s, c);
    let t = s + seq![c] + name;
    assert forall|i: int| 0 <= i < k implies t[i] != c by {
        assert(t[i] == s[i]);
    }
    assert(t[k] == c);
    lemma_find_is(t, c, k);
    if k < s.len() {
        let rest = s.skip(k + 1);
        lemma_split_push(rest, c, name);
        assert(t.skip(k + 1) =~= rest + seq![c] + name);
        assert(t.take(k) =~= s.take(k));
        assert(split_on(t, c) =~= split_on(s, c).push(name));
    } else {
        assert(t.take(k) =~= s);
        assert(t.skip(k + 1) =~= name);
        lemma_whole(name, c);
        assert(split_on(t, c) =~= seq![s].push(name));
    }
}

proof fn lemma_whole(name: Seq<char>, c: char)
    requires
        !name.contains(c),
    ensures
        split_on(name, c) == seq![name],
{
    assert forall|i: int| 0 <= i < name.len() implies name[i] != c by {
        assert(name.contains(name[i]));
    }
    lemma_find_is(name, c, name.len() as int);
}

/// The components of a path below a directory are those of the directory and
/// the name: the directory's, where the name is empty or stands for the
/// directory itself.
pub proof fn a_name_is_the_last_component(dir: Seq<char>, name: Seq<char>)
    requires
        dir.len() > 0,
        !name.contains('/'),
    ensures
        name.len() > 0 && name != "."@ ==> components(dir + seq!['/'] + name) == components(
            dir,
        ).push(name),
        name.len() == 0 || name == "."@ ==> components(dir + seq!['/'] + name) == components(dir),
{
    let s = dir + seq!['/'] + name;
    lemma_split_push(dir, '/', name);
    let a = split_on(dir, '/');
    let b = split_on(s, '/');
    a_text_splits_at_every_separator(dir, '/');
    lemma_counted_same(a, b, a.len() as int);
    assert(b[a.len() as int] == name);
    assert(s[0] == dir[0]);
    assert(is_absolute(s) == is_absolute(dir));
    let ca = counted(a, a.len() as int);
    if name.len() > 0 && name != "."@ {
        assert(components(s) =~= components(dir).push(name));
    }
}

proof fn lemma_counted_same(a: Seq<Seq<char>>, b: Seq<Seq<char>>, n: int)
    requires
        0 <= n <= a.len(),
        n <= b.len(),
        forall|i: int| 0 <= i < n ==> a[i] == b[i],
    ensures
        counted(a, n) == counted(b, n),
    decreases n,
{
    if n > 0 {
        lemma_counted_same(a, b, n - 1);
        assert(a[n - 1] == b[n - 1]);
    }
}

/// What lies below a directory lies within it, and its name is what it was
/// joined under; the directory itself is the same with a separator behind it
/// or without, and lies within itself.
pub proof fn what_is_joined_lies_within(dir: Seq<char>, name: Seq<char>)
    requires
        dir.len() > 0,
        name.len() > 0,
        !name.contains('/'),
        name != "."@,
        name != ".."@,
        components(dir).len() > 0 || dir.last() != '/',
    ensures
        path_within(dir + seq!['/'] + name, dir),
        !path_within(dir, dir + seq!['/'] + name),
        file_name(dir + seq!['/'] + name) == Some(name),
        same_path(dir, dir + seq!['/']),
        path_within(dir, dir),
        dir.last() != '/' ==> join(dir, name) == dir + seq!['/'] + name,
        dir.last() == '/' ==> join(dir, name) == dir + name,
        join(dir, seq!['/'] + name) == seq!['/'] + name,
{
    a_name_is_the_last_component(dir, name);
    a_name_is_the_last_component(dir, Seq::empty());
    assert(dir + seq!['/'] + Seq::<char>::empty() =~= dir + seq!['/']);
    let a = components(dir);
    assert(a.push(name).take(a.len() as int) =~= a);
    assert(a.take(a.len() as int) =~= a);
    reveal_strlit("/");
    assert("/"@ =~= seq!['/']);
    assert(name != "/"@) by {
        if name == "/"@ {
            assert(name[0] == '/');
            assert(name.contains('/'));
        }
    }
    if is_absolute(name) {
        assert(name.contains(name[0]));
    }
    assert(is_absolute(seq!['/'] + name));
}

/// A number is written in base sixteen with lower-case digits, the highest
/// first: to a width with zeros in front, and otherwise with none to spare.
pub proof fn a_number_is_written_in_base_sixteen(n: nat, d: nat, width: nat)
    requires
        d < 16,
    ensures
        hex_char(d) == (if d < 10 {
            (48 + d) as char
        } else {
            (87 + d) as char
        }),
        hex_number(d) == seq![hex_char(d)],
        n > 0 ==> hex_number(16 * n + d) == hex_number(n).push(hex_char(d)),
        hex_padded(n, width).len() == width,
        hex_padded(16 * n + d, width + 1) == hex_padded(n, width).push(hex_char(d)),
    decreases width,
{
    assert((16 * n + d) / 16 == n && (16 * n + d) % 16 == d);
    if width > 0 {
        a_number_is_written_in_base_sixteen(n / 16, n % 16, (width - 1) as nat);
    }
}

/// White space is exactly these characters.
pub proof fn white_space_is_exactly_this(c: char)
    ensures
        is_space(c) <==> {
            ||| c == ' ' || c == '\t' || c == '\n' || c == '\r'
            ||| c as u32 == 0x0b || c as u32 == 0x0c
            ||| c as u32 == 0x85 || c as u32 == 0xa0
            ||| c as u32 == 0x1680
            ||| 0x2000 <= c as u32 <= 0x200a
            ||| c as u32 == 0x2028 || c as u32 == 0x2029
            ||| c as u32 == 0x202f || c as u32 == 0x205f
            ||| c as u32 == 0x3000
        },
{
}

/// White space around a text that has none at its ends is all that trimming
/// takes off.
pub proof fn white_space_around_is_taken_off(a: Seq<char>, s: Seq<char>, b: Seq<char>)
    requires
        blank(a),
        blank(b),
        tight(s),
    ensures
        trim(a + s + b) == s,
{
    if s.len() == 0 {
        let all = a + s + b;
        assert forall|i: int| 0 <= i < all.len() implies is_space(#[trigger] all[i]) by {
            if i < a.len() {
                assert(all[i] == a[i]);
            } else {
                assert(all[i] == b[i - a.len()]);
            }
        }
        let t = lemma_trim_start(all);
        if trim_start(all).len() > 0 {
            assert(trim_start(all)[0] == all[t.len() as int]);
        }
        assert(trim(all) =~= s);
    } else {
        lemma_skip_start(a, s + b);
        assert(a + s + b =~= a + (s + b));
        assert(trim_start(a + s + b) == s + b);
        lemma_skip_end(s, b);
    }
}

proof fn lemma_skip_start(a: Seq<char>, s: Seq<char>)
    requires
        blank(a),
        s.len() > 0,
        !is_space(s[0]),
    ensures
        trim_start(a + s) == s,
    decreases a.len(),
{
    if a.len() == 0 {
        assert(a + s =~= s);
    } else {
        let t = a.drop_first();
        assert(is_space(a[0]));
        assert forall|i: int| 0 <= i < t.len() implies is_space(#[trigger] t[i]) by {
            assert(is_space(a[i + 1]));
        }
        assert((a + s).drop_first() =~= t + s);
        lemma_skip_start(t, s);
    }
}

proof fn lemma_skip_end(s: Seq<char>, b: Seq<char>)
    requires
        blank(b),
        s.len() > 0,
        !is_space(s.last()),
    ensures
        trim_end(s + b) == s,
    decreases b.len(),
{
    if b.len() == 0 {
        assert(s + b =~= s);
    } else {
        let t = b.drop_last();
        assert(is_space(b[b.len() - 1]));
        assert forall|i: int| 0 <= i < t.len() implies is_space(#[trigger] t[i]) by {
            assert(is_space(b[i]));
        }
        assert((s + b).drop_last() =~= s + t);
        lemma_skip_end(s, t);
    }
}

/// The handle of a store is the last part of its path, without the ending of a
/// log.
pub proof fn a_handle_is_the_last_part(path: Seq<char>, name: Seq<char>)
    ensures
        file_name(path) == Some(name + ".log"@) ==> handle_at(path) == name,
        file_name(path) == Some(name) && !ends_with(name, ".log"@) ==> handle_at(path) == name,
        file_name(path) is None ==> handle_at(path).len() == 0,
{
    what_is_taken_off_is_what_was_put_on(".log"@, name, name);
}

/// The parts of a path that is one name are that name, of the root the root, and
/// a path from the root has the root before its other parts.
pub proof fn a_path_has_its_parts(name: Seq<char>)
    requires
        name.len() > 0,
        !name.contains('/'),
    ensures
        components(name) == seq![name],
        components(seq!['/']) == seq!["/"@],
        name != "."@ ==> components(seq!['/'] + name) == seq!["/"@, name],
        components(Seq::empty()) == Seq::<Seq<char>>::empty(),
{
    let none = Seq::<char>::empty();
    lemma_whole(name, '/');
    reveal_with_fuel(counted, 3);
    assert(name[0] != '/') by {
        if name[0] == '/' {
            assert(name.contains('/'));
        }
    }
    assert(components(name) =~= seq![name]);
    lemma_split_push(none, '/', none);
    lemma_whole(none, '/');
    assert(none + seq!['/'] + none =~= seq!['/']);
    assert(seq![none].push(none).len() == 2);
    assert(components(seq!['/']) =~= seq!["/"@]);
    lemma_split_push(none, '/', name);
    assert(none + seq!['/'] + name =~= seq!['/'] + name);
    assert((seq!['/'] + name)[0] == '/');
    if name != "."@ {
        assert(components(seq!['/'] + name) =~= seq!["/"@, name]);
    }
    assert(components(none) =~= Seq::<Seq<char>>::empty());
}

/// Letters are written small one by one, and nothing else changes.
pub proof fn letters_are_written_small(s: Seq<char>, i: int)
    requires
        0 <= i < s.len(),
    ensures
        lower(s).len() == s.len(),
        'A' <= s[i] <= 'Z' ==> lower(s)[i] as u32 == s[i] as u32 + 32,
        !('A' <= s[i] <= 'Z') ==> lower(s)[i] == s[i],
        upper(s).len() == s.len(),
        'a' <= s[i] <= 'z' ==> upper(s)[i] as u32 == s[i] as u32 - 32,
        !('a' <= s[i] <= 'z') ==> upper(s)[i] == s[i],
{
}

proof fn lemma_part_chars(s: Seq<char>, c: char, i: int, x: char)
    requires
        !s.contains(x),
        0 <= i < split_on(s, c).len(),
    ensures
        !split_on(s, c)[i].contains(x),
    decreases s.len(),
{
    lemma_find(s, c);
    let k = find(s, c);
    if k < s.len() {
        let rest = s.skip(k + 1);
        if rest.contains(x) {
            let j = choose|j: int| 0 <= j < rest.len() && rest[j] == x;
            assert(s[k + 1 + j] == x);
        }
        if i == 0 {
            let part = s.take(k);
            if part.contains(x) {
                let j = choose|j: int| 0 <= j < part.len() && part[j] == x;
                assert(s[j] == x);
            }
        } else {
            lemma_part_chars(rest, c, i - 1, x);
        }
    }
}

proof fn lemma_counted_parts(parts: Seq<Seq<char>>, n: int, i: int) -> (j: int)
    requires
        0 <= n <= parts.len(),
        0 <= i < counted(parts, n).len(),
    ensures
        0 <= j < n,
        counted(parts, n)[i] == parts[j],
    decreases n,
{
    let front = counted(parts, n - 1);
    if i < front.len() {
        lemma_counted_parts(parts, n - 1, i)
    } else {
        n - 1
    }
}

/// Whether a list of parts can be told apart by their keys: none holds a zero
/// character.
spec fn keyed(cs: Seq<Seq<char>>) -> bool {
    forall|i: int| 0 <= i < cs.len() ==> !(#[trigger] cs[i]).contains('\0')
}

proof fn lemma_keyed(p: Seq<char>)
    requires
        !p.contains('\0'),
    ensures
        keyed(components(p)),
{
    let parts = split_on(p, '/');
    let named = counted(parts, parts.len() as int);
    let cs = components(p);
    reveal_strlit("/");
    assert forall|i: int| 0 <= i < cs.len() implies !(#[trigger] cs[i]).contains('\0') by {
        let at = if is_absolute(p) {
            i - 1
        } else {
            i
        };
        if at >= 0 {
            assert(cs[i] == named[at]);
            let j = lemma_counted_parts(parts, parts.len() as int, at);
            lemma_part_chars(p, '/', j, '\0');
        } else {
            assert(cs[i] == "/"@);
            assert("/"@[0] == '/');
        }
    }
}

spec fn keys_of(cs: Seq<Seq<char>>) -> Seq<Seq<char>> {
    Seq::new(cs.len(), |i: int| component_key(cs[i]))
}

proof fn lemma_key_parts(cs: Seq<Seq<char>>, n: int)
    requires
        keyed(cs),
        0 < n <= cs.len(),
    ensures
        components_key(cs, n).len() > 0,
        components_key(cs, n).last() == '\0',
        split_on(components_key(cs, n).drop_last(), '\0') == keys_of(cs).take(n),
    decreases n,
{
    let c = cs[n - 1];
    let key = component_key(c);
    let all = components_key(cs, n);
    assert(!c.contains('\0'));
    assert(!key.contains('\0')) by {
        if key.contains('\0') {
            let i = choose|i: int| 0 <= i < key.len() && key[i] == '\0';
            if i > 0 {
                assert(c[i - 1] == '\0');
                assert(c.contains('\0'));
            }
        }
    }
    let before = components_key(cs, n - 1);
    assert(all.drop_last() =~= before + key);
    if n == 1 {
        assert(before + key =~= key);
        lemma_whole(key, '\0');
        assert(keys_of(cs).take(1) =~= seq![key]);
    } else {
        lemma_key_parts(cs, n - 1);
        let p = before.drop_last();
        assert(before =~= p + seq!['\0']);
        lemma_split_push(p, '\0', key);
        assert(before + key =~= p + seq!['\0'] + key);
        assert(keys_of(cs).take(n) =~= keys_of(cs).take(n - 1).push(key));
    }
}

proof fn lemma_key_tells(a: Seq<char>, b: Seq<char>)
    requires
        component_key(a) == component_key(b),
    ensures
        a == b,
{
    reveal_strlit("/");
    reveal_strlit(".");
    reveal_strlit("..");
    let x = component_key(a);
    let y = component_key(b);
    assert(x[0] == y[0]);
    if x[0] == '3' {
        assert(x.skip(1) =~= a);
        assert(y.skip(1) =~= b);
    }
}

/// Two paths are filed under one key exactly where they are the same path.
pub proof fn one_path_has_one_key(a: Seq<char>, b: Seq<char>)
    requires
        !a.contains('\0'),
        !b.contains('\0'),
    ensures
        path_key(a) == path_key(b) <==> same_path(a, b),
{
    let x = components(a);
    let y = components(b);
    lemma_keyed(a);
    lemma_keyed(b);
    if path_key(a) == path_key(b) {
        if x.len() > 0 {
            lemma_key_parts(x, x.len() as int);
        }
        if y.len() > 0 {
            lemma_key_parts(y, y.len() as int);
        }
        assert(x.len() == 0 <==> y.len() == 0);
        if x.len() > 0 {
            assert(keys_of(x).take(x.len() as int) =~= keys_of(x));
            assert(keys_of(y).take(y.len() as int) =~= keys_of(y));
            assert(keys_of(x) == keys_of(y));
            assert(keys_of(x).len() == keys_of(y).len());
            assert forall|i: int| 0 <= i < x.len() implies x[i] == y[i] by {
                assert(keys_of(x)[i] == keys_of(y)[i]);
                lemma_key_tells(x[i], y[i]);
            }
        }
        assert(x =~= y);
    }
}

} // verus!
