//! What reading records and objects, and telling of followers, comes to.

use crate::bark::{time_or_number, ManifestModel, Retention};
use crate::consumer::{
    bytes_taken, field_from, field_of, hello_of, next_said, note_of, offsets_of, progress_of,
    record_said, ReportModel, ReportProblem,
};
use crate::cursor::Standing;
use crate::declaration::DeclarationModel;
use crate::declare::drift_phrase;
use crate::export::{comp_total, exported_manifest, next_number, rebased, uncomp_total};
use crate::feed::note_said;
use crate::follower::{
    covered_index, lag_said, Covered, CoveredModel, Matched, Registered, UncoveredModel,
};
use crate::forest::{candidates, By, Scanned};
use crate::format::ChunkRecord;
use crate::indexing::{per_chunk, progress_due, progress_said};
use crate::interest::{loss_said, InterestModel, RotateStats};
use crate::json::{
    fields_map, flag_in, item_text, json_quoted, json_string, json_text, list_text, object_members,
    object_text, objects_text, ordered_keys, text_in, whole_in, FieldModel, ItemModel, JsonModel,
};
use crate::listing::{extension, last_dot, stem};
use crate::lists::lemma_push;
use crate::order::{lemma_order_unique, ordered};
use crate::registration::{all_changed, all_unset, changed, joining, leaving, matched_index, Change};
use crate::registry_view::{covered_fields, follower_fields, gone_among, row, uncovered_fields};
use crate::sending::{described, Sources};
use crate::text::{decimal, joined, parsed, split_once, texts, trim};
use crate::uuid::{hex_value, is_uuid, uuid_chars, uuid_of, without_hyphens};
use crate::wire::{find_byte, lemma_find_byte, lemma_find_byte_is, lossy, split_bytes};
use vstd::prelude::*;
use vstd::utf8::encode_utf8;

verus! {

// ------------------------------------------------------------------ objects

/// Where an object names a member several times, the last one stands; a member
/// that it does not name is not there.
pub proof fn the_last_member_of_a_name_stands(v: Seq<FieldModel>, key: Seq<char>, i: int)
    ensures
        0 <= i < v.len() && v[i].key == key && (forall|j: int|
            i < j < v.len() ==> (#[trigger] v[j]).key != key) ==> fields_map(v).contains_key(key)
            && fields_map(v)[key] == v[i].value,
        (forall|j: int| 0 <= j < v.len() ==> (#[trigger] v[j]).key != key) ==> !fields_map(
            v,
        ).contains_key(key),
    decreases v.len(),
{
    if v.len() > 0 {
        let front = v.drop_last();
        assert forall|j: int| 0 <= j < front.len() implies #[trigger] front[j] == v[j] by {}
        assert(v[v.len() - 1] == v.last());
        the_last_member_of_a_name_stands(front, key, i);
    }
}

/// A member is read as what it is and as nothing else.
pub proof fn a_member_is_read_as_what_it_is(
    m: ManifestModel,
    key: Seq<char>,
    s: Seq<char>,
    n: u64,
)
    ensures
        text_in(m, key) == Some(s) <==> m.contains_key(key) && m[key] == JsonModel::Text(s),
        whole_in(m, key) == Some(n) <==> m.contains_key(key) && m[key] == JsonModel::Whole(n),
        flag_in(m, key) <==> m.contains_key(key) && m[key] == JsonModel::Bool(true),
        !m.contains_key(key) ==> text_in(m, key) is None && whole_in(m, key) is None && !flag_in(
            m,
            key,
        ),
{
}

/// A list is written as its items with commas between them, in brackets.
pub proof fn a_list_is_written_item_by_item(v: Seq<ItemModel>)
    ensures
        list_text(v) == "["@ + joined(Seq::new(v.len(), |i: int| item_text(v[i])), ","@),
    decreases v.len(),
{
    let parts = Seq::new(v.len(), |i: int| item_text(v[i]));
    if v.len() == 0 {
        assert("["@ + joined(parts, ","@) =~= "["@);
    } else if v.len() > 1 {
        let front = v.drop_last();
        a_list_is_written_item_by_item(front);
        assert(parts.drop_last() =~= Seq::new(front.len(), |i: int| item_text(front[i])));
        assert(list_text(v) =~= "["@ + joined(parts, ","@));
    }
}

// -------------------------------------------------------------- identifiers

/// A hexadecimal digit means the same in either case.
pub proof fn a_digit_means_the_same_in_either_case(c: char)
    ensures
        hex_value(c) is Some <==> ('0' <= c <= '9' || 'a' <= c <= 'f' || 'A' <= c <= 'F'),
        '0' <= c <= '9' ==> hex_value(c)->Some_0 == c as u32 - 48,
        'a' <= c <= 'f' ==> hex_value(c)->Some_0 == c as u32 - 97 + 10,
        'A' <= c <= 'F' ==> hex_value(c)->Some_0 == c as u32 - 65 + 10,
{
}

/// Hyphens in an identifier mean nothing, wherever they stand.
pub proof fn hyphens_mean_nothing(a: Seq<char>, b: Seq<char>)
    ensures
        uuid_of(a + seq!['-'] + b) == uuid_of(a + b),
{
    lemma_hyphens(a, b);
}

proof fn lemma_hyphens(a: Seq<char>, b: Seq<char>)
    ensures
        without_hyphens(a + seq!['-'] + b) == without_hyphens(a + b),
    decreases b.len(),
{
    if b.len() == 0 {
        assert((a + seq!['-'] + b).drop_last() =~= a + b);
    } else {
        lemma_hyphens(a, b.drop_last());
        assert((a + seq!['-'] + b).drop_last() =~= a + seq!['-'] + b.drop_last());
        assert((a + b).drop_last() =~= a + b.drop_last());
    }
}

/// An identifier is thirty-two hexadecimal digits, two to a byte, the high half
/// first.
pub proof fn two_digits_make_a_byte(s: Seq<char>, i: int)
    requires
        !s.contains('-'),
        0 <= i < 16,
    ensures
        uuid_of(s) is Some <==> s.len() == 32 && forall|j: int|
            0 <= j < 32 ==> hex_value(#[trigger] s[j]) is Some,
        uuid_of(s) is Some ==> uuid_of(s)->Some_0.len() == 16 && uuid_of(s)->Some_0[i] == 16
            * hex_value(s[2 * i])->Some_0 + hex_value(s[2 * i + 1])->Some_0,
{
    lemma_no_hyphens(s);
    if is_uuid(s) {
        assert(hex_value(s[2 * i]) is Some && hex_value(s[2 * i + 1]) is Some);
    }
}

proof fn lemma_no_hyphens(s: Seq<char>)
    requires
        !s.contains('-'),
    ensures
        without_hyphens(s) == s,
    decreases s.len(),
{
    if s.len() > 0 {
        let front = s.drop_last();
        assert(s.contains(s.last()));
        if front.contains('-') {
            let i = choose|i: int| 0 <= i < front.len() && front[i] == '-';
            assert(s[i] == '-');
        }
        lemma_no_hyphens(front);
        assert(front.push(s.last()) =~= s);
    }
}

proof fn lemma_hex_len(b: Seq<u8>)
    ensures
        crate::uuid::hex(b).len() == 2 * b.len(),
    decreases b.len(),
{
    if b.len() > 0 {
        lemma_hex_len(b.drop_last());
    }
}

/// An identifier is written in groups of eight, four, four, four and twelve.
pub proof fn an_identifier_is_written_in_groups(b: Seq<u8>)
    requires
        b.len() == 16,
    ensures
        uuid_chars(b).len() == 36,
        uuid_chars(b)[8] == '-' && uuid_chars(b)[13] == '-' && uuid_chars(b)[18] == '-'
            && uuid_chars(b)[23] == '-',
{
    lemma_hex_len(b.subrange(0, 4));
    lemma_hex_len(b.subrange(4, 6));
    lemma_hex_len(b.subrange(6, 8));
    lemma_hex_len(b.subrange(8, 10));
    lemma_hex_len(b.subrange(10, 16));
}

// ------------------------------------------------------------------ listing

proof fn lemma_last_dot(name: Seq<char>)
    ensures
        -1 <= last_dot(name) < name.len(),
        last_dot(name) >= 0 ==> name[last_dot(name)] == '.',
        forall|i: int| last_dot(name) < i < name.len() ==> #[trigger] name[i] != '.',
    decreases name.len(),
{
    if name.len() > 0 && name.last() != '.' {
        let front = name.drop_last();
        lemma_last_dot(front);
        assert forall|i: int| last_dot(name) < i < name.len() implies #[trigger] name[i]
            != '.' by {
            if i < front.len() {
                assert(front[i] == name[i]);
            }
        }
    }
}

/// A name's extension is what stands behind its last dot, and its stem what
/// stands before it; a name with no dot, or with none but the one that it
/// starts with, has no extension.
pub proof fn an_extension_stands_behind_the_last_dot(a: Seq<char>, b: Seq<char>)
    requires
        !b.contains('.'),
    ensures
        a.len() > 0 && a + seq!['.'] + b != ".."@ ==> extension(a + seq!['.'] + b) == Some(b)
            && stem(a + seq!['.'] + b) == a,
        extension(b) is None && stem(b) == b,
        extension(seq!['.'] + b) is None && stem(seq!['.'] + b) == seq!['.'] + b,
{
    let s = a + seq!['.'] + b;
    lemma_last_dot(s);
    lemma_last_dot(b);
    lemma_last_dot(seq!['.'] + b);
    assert forall|i: int| 0 <= i < b.len() implies #[trigger] b[i] != '.' by {
        assert(b.contains(b[i]));
    }
    assert(s[a.len() as int] == '.');
    assert forall|i: int| a.len() < i < s.len() implies #[trigger] s[i] != '.' by {
        assert(s[i] == b[i - a.len() - 1]);
    }
    assert(last_dot(s) == a.len());
    assert(s.skip(a.len() as int + 1) =~= b);
    assert(s.take(a.len() as int) =~= a);
    let t = seq!['.'] + b;
    assert forall|i: int| 0 < i < t.len() implies #[trigger] t[i] != '.' by {
        assert(t[i] == b[i - 1]);
    }
    assert(t[0] == '.');
    assert(last_dot(t) == 0);
}

// ------------------------------------------------------------------- export

/// What is exported is packed: the first chunk starts at nothing, each starts
/// where the one before it ends, and nothing else of a chunk changes. The next
/// number is one behind the last.
pub proof fn what_is_exported_is_packed(chunks: Seq<ChunkRecord>, i: int)
    requires
        0 <= i < chunks.len(),
        uncomp_total(chunks, chunks.len() as int) <= u64::MAX,
        comp_total(chunks, chunks.len() as int) <= u64::MAX,
        chunks.last().seq < u64::MAX,
    ensures
        rebased(chunks).len() == chunks.len(),
        rebased(chunks)[0].uncomp_start == 0 && rebased(chunks)[0].comp_start == 0,
        i > 0 ==> rebased(chunks)[i].uncomp_start == rebased(chunks)[i - 1].uncomp_start + chunks[i
            - 1].uncomp_len,
        i > 0 ==> rebased(chunks)[i].comp_start == rebased(chunks)[i - 1].comp_start + chunks[i
            - 1].comp_len,
        rebased(chunks)[i] == (ChunkRecord {
            uncomp_start: rebased(chunks)[i].uncomp_start,
            comp_start: rebased(chunks)[i].comp_start,
            ..chunks[i]
        }),
        next_number(rebased(chunks)) == chunks.last().seq + 1,
        next_number(Seq::empty()) == 0,
{
    lemma_totals(chunks, i, chunks.len() as int);
    if i > 0 {
        lemma_totals(chunks, i - 1, chunks.len() as int);
    }
}

proof fn lemma_totals(chunks: Seq<ChunkRecord>, i: int, n: int)
    requires
        0 <= i <= n <= chunks.len(),
    ensures
        uncomp_total(chunks, i) <= uncomp_total(chunks, n),
        comp_total(chunks, i) <= comp_total(chunks, n),
    decreases n - i,
{
    if i < n {
        lemma_totals(chunks, i, n - 1);
    }
}

/// An export says the window that it was asked for, each end where it was given.
pub proof fn an_export_says_its_window(
    source: Option<ManifestModel>,
    from: Option<u64>,
    to: Option<u64>,
)
    ensures
        from is Some ==> exported_manifest(source, from, to).contains_key("window_from"@)
            && exported_manifest(source, from, to)["window_from"@] == JsonModel::Text(
            time_or_number(from->Some_0),
        ),
        from is None ==> !exported_manifest(source, from, to).contains_key("window_from"@),
        to is Some ==> exported_manifest(source, from, to).contains_key("window_to"@)
            && exported_manifest(source, from, to)["window_to"@] == JsonModel::Text(
            time_or_number(to->Some_0),
        ),
        to is None ==> !exported_manifest(source, from, to).contains_key("window_to"@),
{
    reveal_strlit("window_from");
    reveal_strlit("window_to");
    reveal_strlit("derived_from");
    reveal_strlit("derived_op");
    assert("window_from"@.len() == 11 && "window_to"@.len() == 9 && "derived_from"@.len() == 12
        && "derived_op"@.len() == 10);
}

// ------------------------------------------------------------------ reports

/// Whether a part of a record is of a name.
pub open spec fn part_named(part: Seq<u8>, key: Seq<char>) -> bool {
    split_once(lossy(part), '=') is Some && split_once(lossy(part), '=')->Some_0.0 == key
}

/// A field of a record is the first part of its name behind the record's kind,
/// from the equals sign on; a record without one has no such field.
pub proof fn a_field_is_the_first_of_its_name(parts: Seq<Seq<u8>>, key: Seq<char>, i: int)
    ensures
        1 <= i < parts.len() && part_named(parts[i], key) && (forall|j: int|
            1 <= j < i ==> !part_named(#[trigger] parts[j], key)) ==> field_of(parts, key) == Some(
            split_once(lossy(parts[i]), '=')->Some_0.1,
        ),
        (forall|j: int| 1 <= j < parts.len() ==> !part_named(#[trigger] parts[j], key))
            ==> field_of(parts, key) is None,
{
    if parts.len() > 0 {
        lemma_field(parts, key, 1, i);
    }
}

proof fn lemma_field(parts: Seq<Seq<u8>>, key: Seq<char>, at: int, i: int)
    requires
        0 <= at <= parts.len(),
    ensures
        at <= i < parts.len() && part_named(parts[i], key) && (forall|j: int|
            at <= j < i ==> !part_named(#[trigger] parts[j], key)) ==> field_from(parts, at, key)
            == Some(split_once(lossy(parts[i]), '=')->Some_0.1),
        (forall|j: int| at <= j < parts.len() ==> !part_named(#[trigger] parts[j], key))
            ==> field_from(parts, at, key) is None,
    decreases parts.len() - at,
{
    if at < parts.len() {
        lemma_field(parts, key, at + 1, i);
    }
}

/// What a consumer holds is read store by store, each with the number that is
/// said of it, and one that is no number is refused.
pub proof fn what_is_held_is_read_store_by_store(members: Seq<FieldModel>, n: int, i: int)
    requires
        0 <= n <= members.len(),
    ensures
        offsets_of(members, n) is Ok <==> forall|j: int|
            0 <= j < n ==> (#[trigger] members[j]).value is Whole,
        offsets_of(members, n) is Ok ==> offsets_of(members, n)->Ok_0.len() == n,
        offsets_of(members, n) is Ok && 0 <= i < n ==> offsets_of(members, n)->Ok_0[i] == (
            members[i].key,
            members[i].value->Whole_0,
        ),
    decreases n,
{
    if n > 0 {
        what_is_held_is_read_store_by_store(members, n - 1, i);
        if forall|j: int| 0 <= j < n ==> (#[trigger] members[j]).value is Whole {
            assert(members[n - 1].value is Whole);
        }
    }
}

/// A consumer says hello first, in version one, and reads records unless it says
/// otherwise.
pub proof fn a_consumer_says_hello_first(parts: Seq<Seq<u8>>)
    ensures
        progress_of(parts, false) is Err,
        note_of(parts, false) is Err,
        field_of(parts, "v"@) != Some("1"@) ==> hello_of(parts) is Err,
        hello_of(parts) is Ok ==> hello_of(parts)->Ok_0 is Hello && (field_of(
            parts,
            "reads"@,
        ) is None ==> hello_of(parts)->Ok_0->reads is Records) && (field_of(parts, "reads"@)
            is Some ==> hello_of(parts)->Ok_0->reads.word() == field_of(parts, "reads"@)->Some_0)
            && (field_of(parts, "holds"@) is None ==> hello_of(parts)->Ok_0->holds.len() == 0),
        field_of(parts, "reads"@) is Some && field_of(parts, "reads"@)->Some_0 != "records"@
            && field_of(parts, "reads"@)->Some_0 != "chunks"@ ==> hello_of(parts) is Err,
{
    reveal_strlit("1");
    reveal_strlit("records");
    reveal_strlit("chunks");
    assert("1"@.len() == 1);
    assert("records"@.len() != "chunks"@.len());
}

/// A report of progress says which store and how far, in whole bytes, or is
/// refused.
pub proof fn progress_says_which_store_and_how_far(parts: Seq<Seq<u8>>)
    ensures
        progress_of(parts, true) is Ok <==> field_of(parts, "id"@) is Some && field_of(
            parts,
            "offset"@,
        ) is Some && parsed(field_of(parts, "offset"@)->Some_0, u64::MAX as nat) is Some,
        progress_of(parts, true) is Ok ==> progress_of(parts, true)->Ok_0 is Progress
            && progress_of(parts, true)->Ok_0->Progress_id == field_of(parts, "id"@)->Some_0 && Some(
            progress_of(parts, true)->Ok_0->Progress_offset as nat,
        ) == parsed(field_of(parts, "offset"@)->Some_0, u64::MAX as nat),
        note_of(parts, true) is Ok <==> field_of(parts, "text"@) is Some && json_string(
            field_of(parts, "text"@)->Some_0,
        ) is Some,
        note_of(parts, true) is Ok ==> note_of(parts, true)->Ok_0 is Note && note_of(
            parts,
            true,
        )->Ok_0->Note_id == field_of(parts, "id"@) && Some(note_of(parts, true)->Ok_0->text)
            == json_string(field_of(parts, "text"@)->Some_0),
{
}

/// A record of a kind that is not known is passed over: what follows it is read
/// as if it were not there.
pub proof fn an_unknown_record_is_passed_over(raw: Seq<u8>, rest: Seq<u8>, said_hello: bool)
    requires
        !raw.contains(0),
        raw.len() > 0,
        raw[0] == 0x1e,
        split_bytes(raw.skip(1), 0x1f)[0] != encode_utf8("hello"@),
        split_bytes(raw.skip(1), 0x1f)[0] != encode_utf8("progress"@),
        split_bytes(raw.skip(1), 0x1f)[0] != encode_utf8("note"@),
    ensures
        ({
            let all = next_said(raw + seq![0u8] + rest, said_hello);
            let tail = next_said(rest, said_hello);
            &&& all is Err <==> tail is Err
            &&& tail is Err ==> all == tail
            &&& tail is Ok && tail->Ok_0 is None ==> all->Ok_0 is None
            &&& tail is Ok && tail->Ok_0 is Some ==> all->Ok_0 == Some(
                (
                    tail->Ok_0->Some_0.0,
                    raw.len() + 1 + tail->Ok_0->Some_0.1,
                    tail->Ok_0->Some_0.2,
                ),
            )
        }),
{
    let s = raw + seq![0u8] + rest;
    assert forall|i: int| 0 <= i < raw.len() implies (#[trigger] s[i]) != 0 by {
        assert(s[i] == raw[i]);
        assert(raw.contains(raw[i]));
    }
    assert(s[raw.len() as int] == 0);
    lemma_find_byte_is(s, 0, raw.len() as int);
    assert(s.take(raw.len() as int) =~= raw);
    assert(s.skip(raw.len() as int + 1) =~= rest);
}

/// Nothing is said where nothing is left, and what no zero byte ends is cut
/// short; a record that does not start with its mark is refused.
pub proof fn a_record_that_is_cut_short_is_refused(data: Seq<u8>, raw: Seq<u8>, said_hello: bool)
    ensures
        data.len() == 0 ==> next_said(data, said_hello) == Ok::<
            Option<(ReportModel, int, bool)>,
            ReportProblem,
        >(None),
        data.len() > 0 && !data.contains(0) ==> next_said(data, said_hello) == Err::<
            Option<(ReportModel, int, bool)>,
            ReportProblem,
        >(ReportProblem::Truncated),
        raw.len() == 0 || raw[0] != 0x1e ==> record_said(raw, said_hello) == Err::<
            Option<ReportModel>,
            ReportProblem,
        >(ReportProblem::Unmarked),
{
    if !data.contains(0) {
        assert forall|i: int| 0 <= i < data.len() implies (#[trigger] data[i]) != 0 by {
            assert(data.contains(data[i]));
        }
        lemma_find_byte_is(data, 0, data.len() as int);
    }
}

// ------------------------------------------------------------- registration

/// A change changes what it names: what is retained, what is selected, or where
/// it is followed from. A new selection is looked for nowhere in particular.
pub proof fn a_change_changes_what_it_names(d: DeclarationModel, c: Change)
    ensures
        c is Retaining ==> changed(d, c) == (DeclarationModel { retaining: c->Retaining_0, ..d }),
        c is Select ==> changed(d, c) == (DeclarationModel {
            select: c->Select_0@,
            look_in: Seq::empty(),
            ..d
        }),
        c is FollowFrom ==> changed(d, c) == (DeclarationModel {
            follow_from: Some(c->FollowFrom_0@),
            ..d
        }),
        c is Store ==> changed(d, c) == (DeclarationModel {
            select: "[id="@ + c->anchor@ + "]"@,
            look_in: texts(c->look_in@),
            ..d
        }),
{
}

/// Changes are made in order, so the last of each kind stands.
pub proof fn changes_are_made_in_order(d: DeclarationModel, a: Seq<Change>, b: Seq<Change>)
    ensures
        all_changed(d, Seq::empty()) == d,
        all_changed(d, a + b) == all_changed(all_changed(d, a), b),
    decreases b.len(),
{
    if b.len() == 0 {
        assert(a + b =~= a);
    } else {
        changes_are_made_in_order(d, a, b.drop_last());
        assert((a + b).drop_last() =~= a + b.drop_last());
        assert((a + b).last() == b.last());
    }
}

/// Whether one of the keys that are unset is this one.
pub open spec fn unsets(keys: Seq<Seq<char>>, key: Seq<char>) -> bool {
    exists|i: int| 0 <= i < keys.len() && trim(#[trigger] keys[i]) == key
}

proof fn lemma_unsets(front: Seq<Seq<char>>, last: Seq<char>, key: Seq<char>)
    ensures
        unsets(front.push(last), key) <==> unsets(front, key) || trim(last) == key,
{
    let keys = front.push(last);
    assert(keys[front.len() as int] == last);
    if unsets(front, key) {
        let i = choose|i: int| 0 <= i < front.len() && trim(#[trigger] front[i]) == key;
        assert(trim(keys[i]) == key);
    }
    if unsets(keys, key) {
        let i = choose|i: int| 0 <= i < keys.len() && trim(#[trigger] keys[i]) == key;
        if i < front.len() {
            assert(trim(front[i]) == key);
        }
    }
}

/// What is unset is off or gone, and nothing else changes; only what is retained
/// and where it is followed from can be unset.
pub proof fn only_two_keys_can_be_unset(d: DeclarationModel, keys: Seq<Seq<char>>)
    ensures
        all_unset(d, keys) is Ok <==> forall|k: Seq<char>| #[trigger]
            unsets(keys, k) ==> k == "retaining"@ || k == "follow_from"@,
        all_unset(d, keys) is Ok ==> {
            let e = all_unset(d, keys)->Ok_0;
            &&& e == (DeclarationModel { retaining: e.retaining, follow_from: e.follow_from, ..d })
            &&& e.retaining == (d.retaining && !unsets(keys, "retaining"@))
            &&& e.follow_from == (if unsets(keys, "follow_from"@) {
                None
            } else {
                d.follow_from
            })
        },
    decreases keys.len(),
{
    reveal_strlit("retaining");
    reveal_strlit("follow_from");
    assert("retaining"@.len() != "follow_from"@.len());
    if keys.len() > 0 {
        let front = keys.drop_last();
        let last = keys.last();
        only_two_keys_can_be_unset(d, front);
        assert(front.push(last) =~= keys);
        assert forall|k: Seq<char>| #[trigger] unsets(keys, k) <==> unsets(front, k) || trim(last)
            == k by {
            lemma_unsets(front, last, k);
        }
        assert(unsets(keys, trim(last)));
        if forall|k: Seq<char>| #[trigger]
            unsets(keys, k) ==> k == "retaining"@ || k == "follow_from"@ {
            assert forall|k: Seq<char>| #[trigger] unsets(front, k) implies k == "retaining"@ || k
                == "follow_from"@ by {
                assert(unsets(keys, k));
            }
        }
    }
}

proof fn lemma_matched_index(v: Seq<Matched>, id: Seq<char>, i: int)
    requires
        0 <= i <= v.len(),
    ensures
        i <= matched_index(v, id, i) <= v.len(),
        forall|j: int|
            i <= j < matched_index(v, id, i) ==> !((#[trigger] v[j]).id is Some && v[j].id->Some_0@
                == id),
        matched_index(v, id, i) < v.len() ==> v[matched_index(v, id, i)].id is Some
            && v[matched_index(v, id, i)].id->Some_0@ == id,
    decreases v.len() - i,
{
    if i < v.len() && !(v[i].id is Some && v[i].id->Some_0@ == id) {
        lemma_matched_index(v, id, i + 1);
    }
}

/// Whether a selection matches a store.
pub open spec fn matches_store(v: Seq<Matched>, id: Seq<char>) -> bool {
    exists|i: int| 0 <= i < v.len() && (#[trigger] v[i]).id is Some && v[i].id->Some_0@ == id
}

/// The stores that leave a selection are exactly those that were covered and
/// that it no longer matches.
pub proof fn a_store_leaves_where_it_is_no_longer_matched(
    before: Seq<Covered>,
    after: Seq<Matched>,
    c: Covered,
)
    ensures
        leaving(before, after).contains(c) <==> before.contains(c) && !matches_store(after, c.id@),
    decreases before.len(),
{
    if before.len() > 0 {
        let front = before.drop_last();
        let last = before.last();
        a_store_leaves_where_it_is_no_longer_matched(front, after, c);
        lemma_push(front, last, c);
        lemma_push(leaving(front, after), last, c);
        assert(front.push(last) =~= before);
        lemma_matched_index(after, last.id@, 0);
        let k = matched_index(after, last.id@, 0);
        if k < after.len() {
            assert(matches_store(after, last.id@));
        } else if matches_store(after, last.id@) {
            let i = choose|i: int|
                0 <= i < after.len() && (#[trigger] after[i]).id is Some && after[i].id->Some_0@
                    == last.id@;
            assert(!(after[i].id is Some && after[i].id->Some_0@ == last.id@));
        }
    }
}

/// The stores that join a selection are those that it matches, that have an
/// identity and that were not covered.
pub proof fn a_store_joins_where_it_was_not_covered(
    after: Seq<Matched>,
    before: Seq<Covered>,
    handle: Seq<char>,
)
    ensures
        joining(after, before).contains(handle) <==> exists|i: int|
            0 <= i < after.len() && #[trigger] joins(after[i], before) && after[i].handle@
                == handle,
    decreases after.len(),
{
    if after.len() > 0 {
        let front = after.drop_last();
        let last = after.last();
        a_store_joins_where_it_was_not_covered(front, before, handle);
        lemma_push(joining(front, before), last.handle@, handle);
        assert(after[after.len() - 1] == last);
        assert forall|i: int| 0 <= i < front.len() implies #[trigger] front[i] == after[i] by {}
        if last.id is Some {
            lemma_covered(before, last.id->Some_0@, 0);
            let k = covered_index(before, last.id->Some_0@, 0);
            if k < before.len() {
                assert(before[k].id@ == last.id->Some_0@);
            }
        }
        let is = |v: Seq<Matched>|
            exists|i: int|
                0 <= i < v.len() && #[trigger] joins(v[i], before) && v[i].handle@ == handle;
        if is(front) {
            let i = choose|i: int|
                0 <= i < front.len() && #[trigger] joins(front[i], before) && front[i].handle@
                    == handle;
            assert(joins(after[i], before));
        }
        if is(after) {
            let i = choose|i: int|
                0 <= i < after.len() && #[trigger] joins(after[i], before) && after[i].handle@
                    == handle;
            if i < front.len() {
                assert(joins(front[i], before));
            }
        }
        if joins(last, before) {
            assert(joins(after[after.len() - 1], before));
        }
    }
}

/// Whether a store that is matched has an identity and was not covered.
pub open spec fn joins(m: Matched, before: Seq<Covered>) -> bool {
    m.id is Some && forall|j: int|
        0 <= j < before.len() ==> (#[trigger] before[j]).id@ != m.id->Some_0@
}

proof fn lemma_covered(v: Seq<Covered>, id: Seq<char>, i: int)
    requires
        0 <= i <= v.len(),
    ensures
        i <= covered_index(v, id, i) <= v.len(),
        forall|j: int| i <= j < covered_index(v, id, i) ==> (#[trigger] v[j]).id@ != id,
        covered_index(v, id, i) < v.len() ==> v[covered_index(v, id, i)].id@ == id,
    decreases v.len() - i,
{
    if i < v.len() && v[i].id@ != id {
        lemma_covered(v, id, i + 1);
    }
}

// -------------------------------------------------------------------- views

/// A covered store is told of under names of its own, and what cannot be told is
/// null, never nothing.
pub proof fn a_covered_store_is_told_under_its_own_names(c: CoveredModel, st: Standing)
    ensures
        covered_fields(c)["id"@] == JsonModel::Text(c.id),
        covered_fields(c)["path"@] == JsonModel::Text(c.path),
        covered_fields(c)["read"@] == JsonModel::Bool(c.read),
        c.standing == Some(st) ==> {
            &&& covered_fields(c)["consumed_chunks"@] == JsonModel::Whole(st.consumed_chunks as u64)
            &&& covered_fields(c)["behind_chunks"@] == JsonModel::Whole(st.behind_chunks as u64)
            &&& covered_fields(c)["behind_bytes"@] == JsonModel::Whole(st.behind_bytes)
            &&& covered_fields(c)["behind_ms"@] == JsonModel::Whole(st.behind_ms)
            &&& st.gap_chunks is Some ==> covered_fields(c)["gap_chunks"@] == JsonModel::Whole(
                st.gap_chunks->Some_0,
            )
            &&& st.gap_chunks is None ==> covered_fields(c)["gap_chunks"@] is Null
        },
        c.standing is None ==> covered_fields(c)["consumed_chunks"@] is Null && covered_fields(
            c,
        )["behind_chunks"@] is Null && covered_fields(c)["behind_bytes"@] is Null
            && covered_fields(c)["behind_ms"@] is Null && covered_fields(c)["gap_chunks"@] is Null,
        c.note is None <==> covered_fields(c)["note"@] is Null,
{
    reveal_strlit("id");
    reveal_strlit("path");
    reveal_strlit("read");
    reveal_strlit("consumed_chunks");
    reveal_strlit("behind_chunks");
    reveal_strlit("behind_bytes");
    reveal_strlit("behind_ms");
    reveal_strlit("gap_chunks");
    reveal_strlit("note");
    assert("id"@.len() == 2 && "path"@.len() == 4 && "read"@.len() == 4 && "consumed_chunks"@.len()
        == 15 && "behind_chunks"@.len() == 13 && "behind_bytes"@.len() == 12 && "behind_ms"@.len()
        == 9 && "gap_chunks"@.len() == 10 && "note"@.len() == 4);
    assert("path"@[0] == 'p' && "read"@[0] == 'r' && "note"@[0] == 'n');
}

/// A follower is told of under names of its own.
pub proof fn a_follower_is_told_under_its_own_names(
    r: Registered,
    distance: Seq<char>,
    on_disk: Seq<Seq<char>>,
)
    ensures
        ({
            let m = follower_fields(r, distance, on_disk);
            &&& m["name"@] == JsonModel::Text(r.decl.name@)
            &&& m["select"@] == JsonModel::Text(r.decl.select@)
            &&& m["retaining"@] == JsonModel::Bool(r.decl.retaining)
            &&& m["created"@] == JsonModel::Text(r.decl.created@)
            &&& m["running"@] == JsonModel::Bool(true) <==> r.live is Running
            &&& m["running"@] == JsonModel::Bool(false) <==> r.live is Stopped
            &&& m["running"@] is Null <==> r.live is Unknown
            &&& m["unit"@] == JsonModel::Text("timberfs-follower@"@ + r.decl.name@ + ".service"@)
            &&& m["lag"@] == JsonModel::Text(lag_said(r, distance))
            &&& m["holds_everything"@] == JsonModel::Bool(
                r.decl.retaining && exists|i: int|
                    0 <= i < r.covered@.len() && !(#[trigger] r.covered@[i]).read,
            )
            &&& r.places is Never ==> m["positions"@] == JsonModel::Text("never"@)
            &&& r.places is Unreadable ==> m["positions"@] == JsonModel::Text("unreadable"@)
            &&& r.places is Held ==> m["positions"@] == JsonModel::Text("held"@)
            &&& m["stores"@] is List && m["stores"@]->List_0.len() == r.covered@.len()
            &&& m["command"@] is List && m["command"@]->List_0.len() == r.decl.command@.len()
            &&& !(r.places is Held) ==> m["uncovered"@] is List && m["uncovered"@]->List_0.len()
                == 0
        }),
{
    reveal_strlit("name");
    reveal_strlit("select");
    reveal_strlit("command");
    reveal_strlit("retaining");
    reveal_strlit("created");
    reveal_strlit("running");
    reveal_strlit("unit");
    reveal_strlit("lag");
    reveal_strlit("holds_everything");
    reveal_strlit("uncovered");
    reveal_strlit("positions");
    reveal_strlit("stores");
    assert("name"@.len() == 4 && "select"@.len() == 6 && "command"@.len() == 7 && "retaining"@.len()
        == 9 && "created"@.len() == 7 && "running"@.len() == 7 && "unit"@.len() == 4 && "lag"@.len()
        == 3 && "holds_everything"@.len() == 16 && "uncovered"@.len() == 9 && "positions"@.len()
        == 9 && "stores"@.len() == 6);
    assert("name"@[0] == 'n' && "unit"@[0] == 'u' && "select"@[1] == 'e' && "stores"@[1] == 't'
        && "command"@[1] == 'o' && "created"@[0] == 'c' && "running"@[0] == 'r' && "command"@[0]
        == 'c' && "created"@[1] == 'r' && "retaining"@[0] == 'r' && "uncovered"@[0] == 'u'
        && "positions"@[0] == 'p');
}

/// What is left behind is told of under names of its own, and counts as gone
/// where it is not on disk.
pub proof fn what_is_left_behind_is_told_of(v: Seq<UncoveredModel>, u: UncoveredModel)
    ensures
        uncovered_fields(u)["id"@] == JsonModel::Text(u.id),
        uncovered_fields(u)["on_disk"@] == JsonModel::Bool(u.on_disk),
        gone_among(Seq::empty()) == 0,
        gone_among(v.push(u)) == gone_among(v) + (if u.on_disk {
            0int
        } else {
            1int
        }),
{
    reveal_strlit("id");
    reveal_strlit("on_disk");
    assert("id"@.len() == 2 && "on_disk"@.len() == 7);
    assert(v.push(u).drop_last() =~= v);
}

/// A row says a follower's name, how many stores it covers, whether it retains,
/// how far behind it is and whether it runs, in that order.
pub proof fn a_row_says_a_follower(r: Registered, distance: Seq<char>)
    ensures
        row(r, distance).len() == 6,
        row(r, distance)[0] == r.decl.name@,
        row(r, distance)[2] == decimal(r.covered@.len()),
        row(r, distance)[3] == "yes"@ <==> r.decl.retaining,
        row(r, distance)[3] == "no"@ <==> !r.decl.retaining,
        row(r, distance)[4] == lag_said(r, distance),
        row(r, distance)[5] == "yes"@ <==> r.live is Running,
        row(r, distance)[5] == "no"@ <==> r.live is Stopped,
        row(r, distance)[5] == "?"@ <==> r.live is Unknown,
{
    reveal_strlit("yes");
    reveal_strlit("no");
    reveal_strlit("?");
    assert("yes"@.len() == 3 && "no"@.len() == 2 && "?"@.len() == 1);
}

/// What a reader has taken, behind a report, ends where the report ends: with
/// what was passed over before it and no more. Behind a report that is refused
/// the next one starts.
pub proof fn a_reader_takes_up_to_the_end_of_a_report(data: Seq<u8>, said_hello: bool)
    ensures
        next_said(data, said_hello) is Ok && next_said(data, said_hello)->Ok_0 is Some
            ==> bytes_taken(data, said_hello) == next_said(data, said_hello)->Ok_0->Some_0.1,
        next_said(data, said_hello) is Ok && next_said(data, said_hello)->Ok_0 is None
            ==> bytes_taken(data, said_hello) == data.len(),
        0 <= bytes_taken(data, said_hello) <= data.len(),
        data.len() > 0 ==> bytes_taken(data, said_hello) > 0,
    decreases data.len(),
{
    lemma_find_byte(data, 0);
    let k = find_byte(data, 0);
    if k < data.len() {
        a_reader_takes_up_to_the_end_of_a_report(data.skip(k + 1), said_hello);
    }
}

/// Progress is told at every tenth of the way, never at its end and never on a
/// short way; a share is what falls to each, and all of it where there is none.
pub proof fn progress_is_told_at_every_tenth(done: nat, total: nat, n: nat)
    ensures
        total < 10 ==> !progress_due(done, total),
        !progress_due(total, total),
        total >= 10 && done < total ==> (progress_due(done, total) <==> exists|k: nat|
            done == #[trigger] (k * (total / 10))),
        total == 0 ==> per_chunk(n, total) == n,
        total > 0 ==> per_chunk(n, total) * total <= n < (per_chunk(n, total) + 1) * total,
{
    if total >= 10 {
        let d = total / 10;
        if done % d == 0 {
            let k = (done / d) as nat;
            assert(done == k * d) by (nonlinear_arith)
                requires
                    done % d == 0,
                    d > 0,
                    k == done / d,
            ;
        }
        if exists|k: nat| done == #[trigger] (k * d) {
            let k = choose|k: nat| done == #[trigger] (k * d);
            assert((k * d) % d == 0) by (nonlinear_arith)
                requires
                    d > 0,
            ;
        }
    }
    if total > 0 {
        let q = n / total;
        assert(q * total <= n < (q + 1) * total) by (nonlinear_arith)
            requires
                total > 0,
                q == n / total,
        ;
    }
}

/// A value is written as what it is.
pub proof fn a_value_is_written_as_what_it_is(n: u64, s: Seq<char>, v: Seq<ItemModel>)
    ensures
        json_text(JsonModel::Null) == "null"@,
        json_text(JsonModel::Bool(true)) == "true"@,
        json_text(JsonModel::Bool(false)) == "false"@,
        json_text(JsonModel::Whole(n)) == decimal(n as nat),
        json_text(JsonModel::Text(s)) == json_quoted(s),
        json_text(JsonModel::Other(s)) == s,
        json_text(JsonModel::List(v)) == "["@ + joined(
            Seq::new(v.len(), |i: int| item_text(v[i])),
            ","@,
        ) + "]"@,
        item_text(ItemModel::Text(s)) == json_quoted(s),
        item_text(ItemModel::Other(s)) == s,
{
    a_list_is_written_item_by_item(v);
}

/// An object is written as its members with commas between them, each as its
/// name and its value, in the order of their names.
pub proof fn an_object_is_written_member_by_member(
    m: Map<Seq<char>, JsonModel>,
    keys: Seq<Seq<char>>,
)
    requires
        ordered(keys),
        forall|k: Seq<char>| keys.contains(k) <==> m.contains_key(k),
    ensures
        object_text(m) == "{"@ + joined(
            Seq::new(keys.len(), |i: int| json_quoted(keys[i]) + ":"@ + json_text(m[keys[i]])),
            ","@,
        ) + "}"@,
{
    assert(ordered(keys) && forall|k: Seq<char>| keys.contains(k) <==> m.contains_key(k));
    let other = ordered_keys(m);
    assert forall|k: Seq<char>| other.contains(k) <==> keys.contains(k) by {}
    lemma_order_unique(other, keys);
    assert(object_members(m) =~= Seq::new(
        keys.len(),
        |i: int| json_quoted(keys[i]) + ":"@ + json_text(m[keys[i]]),
    ));
}

// ------------------------------------------------------------ what is said

/// Progress is said in whole percents of the way, cut off, and in chunks.
pub proof fn progress_is_said_in_percents(done: nat, total: nat, percent: nat)
    requires
        total > 0,
        percent * total <= 100 * done < (percent + 1) * total,
    ensures
        progress_said(done, total) == "timberfs: reindex "@ + decimal(percent) + "% ("@ + decimal(
            done,
        ) + " of "@ + decimal(total) + " chunks)"@,
{
    assert(100 * done == done * 100);
    assert(done * 100 / total == percent) by (nonlinear_arith)
        requires
            total > 0,
            percent * total <= done * 100 < (percent + 1) * total,
    ;
}

/// Drift is said of a key with what it is and what was asked for; a key that is
/// not there is undeclared.
pub proof fn drift_says_what_is_and_what_was_asked(
    existing: ManifestModel,
    k: Seq<char>,
    v: JsonModel,
    s: Seq<char>,
)
    ensures
        !existing.contains_key(k) && v == JsonModel::Text(s) ==> drift_phrase(existing, k, v) == k
            + " is undeclared, not "@ + s,
        existing.contains_key(k) && existing[k] is Text && v == JsonModel::Text(s) ==> drift_phrase(
            existing,
            k,
            v,
        ) == k + " is "@ + existing[k]->Text_0 + ", not "@ + s,
        existing.contains_key(k) && existing[k] == JsonModel::Bool(true) && v == JsonModel::Bool(
            false,
        ) ==> drift_phrase(existing, k, v) == k + " is "@ + "true"@ + ", not "@ + "false"@,
{
}

/// Every store that answers is named where several do, in order, each by what
/// tells it apart.
pub proof fn every_store_that_answers_is_named(stores: Seq<Scanned>, found: Seq<int>, i: int)
    requires
        0 <= i < found.len(),
    ensures
        candidates(stores, By::Handle, found).len() == found.len(),
        candidates(stores, By::Handle, found)[i] == "  "@ + stores[found[i]].forest@ + ": "@
            + stores[found[i]].path@,
        stores[found[i]].id is Some ==> candidates(stores, By::Name, found)[i] == "  "@
            + stores[found[i]].id->Some_0@ + "  "@ + stores[found[i]].path@ + " ("@
            + stores[found[i]].forest@ + ")"@,
        stores[found[i]].id is Some ==> candidates(stores, By::Id, found)[i] == "  "@
            + stores[found[i]].id->Some_0@ + "  "@ + stores[found[i]].handle@ + " ("@
            + stores[found[i]].forest@ + ")"@,
{
}

/// A loss is said with who was behind and where, and with the chunks that were
/// lost.
pub proof fn a_loss_says_who_lost_what(
    store: Seq<char>,
    policy: Retention,
    budget: Seq<char>,
    stats: RotateStats,
    interest: InterestModel,
    first: u64,
    who: Seq<char>,
)
    requires
        interest.holder == Some(who),
        policy.max_comp_bytes is Some,
    ensures
        interest.holder_at is Some ==> loss_said(store, policy, budget, stats, interest, first)
            == "timberfs: "@ + store + ": retain_size ("@ + budget + ") reached with follower "@
            + who + " "@ + ("at chunk "@ + decimal(interest.holder_at->Some_0 as nat))
            + " — dropped chunks "@ + decimal(first as nat) + ".."@ + decimal(
            stats.last_seq as nat,
        ) + " it had not read"@,
        interest.holder_at is None ==> loss_said(store, policy, budget, stats, interest, first)
            == "timberfs: "@ + store + ": retain_size ("@ + budget + ") reached with follower "@
            + who + " "@ + "which has never run"@ + " — dropped chunks "@ + decimal(first as nat)
            + ".."@ + decimal(stats.last_seq as nat) + " it had not read"@,
{
}

/// A note of a consumer is passed on with the store and the byte that it is of,
/// where it says them.
pub proof fn a_note_says_what_it_is_of(id: Seq<char>, offset: u64, text: Seq<char>)
    ensures
        note_said(None, None, text) == "timberfs: consumer note"@ + ": "@ + text,
        note_said(Some(id), None, text) == "timberfs: consumer note"@ + (" ["@ + id + "]"@) + ": "@
            + text,
        note_said(None, Some(offset), text) == "timberfs: consumer note"@ + (" @"@ + decimal(
            offset as nat,
        )) + ": "@ + text,
        note_said(Some(id), Some(offset), text) == "timberfs: consumer note"@ + (" ["@ + id + "]"@)
            + (" @"@ + decimal(offset as nat)) + ": "@ + text,
{
    reveal_strlit("");
    assert(note_said(None, None, text) =~= "timberfs: consumer note"@ + ": "@ + text);
    assert(note_said(Some(id), None, text) =~= "timberfs: consumer note"@ + (" ["@ + id + "]"@)
        + ": "@ + text);
    assert(note_said(None, Some(offset), text) =~= "timberfs: consumer note"@ + (" @"@ + decimal(
        offset as nat,
    )) + ": "@ + text);
}

/// A list of objects is written as each of them, with commas between them, in
/// brackets.
pub proof fn objects_are_written_one_by_one(v: Seq<Map<Seq<char>, JsonModel>>)
    ensures
        v.len() == 0 ==> objects_text(v) == "["@ + "]"@,
        v.len() == 1 ==> objects_text(v) == "["@ + object_text(v[0]) + "]"@,
        v.len() == 2 ==> objects_text(v) == "["@ + (object_text(v[0]) + ","@ + object_text(v[1]))
            + "]"@,
        objects_text(v) == "["@ + joined(Seq::new(v.len(), |i: int| object_text(v[i])), ","@)
            + "]"@,
{
    let parts = Seq::new(v.len(), |i: int| object_text(v[i]));
    reveal_with_fuel(joined, 3);
    if v.len() == 0 {
        assert(objects_text(v) =~= "["@ + "]"@);
    } else if v.len() == 2 {
        assert(parts.drop_last() =~= seq![object_text(v[0])]);
    }
}

/// What is shipped is described by its path, or by its selection and every place
/// that is looked in.
pub proof fn what_is_shipped_is_described(s: Sources, forests: Seq<Seq<char>>)
    ensures
        s is One ==> described(s, forests) == s->One_0@,
        s is Select && forests.len() + s->look_in@.len() > 0 ==> described(s, forests)
            == s->select@ + " in "@ + joined(forests + texts(s->look_in@), ", "@),
        s is Select && forests.len() == 0 && s->look_in@.len() == 0 ==> described(s, forests)
            == s->select@ + " (no forest is configured and no --look-in was given)"@,
{
}

} // verus!
