//! What a consumer emits is what a follower reads.

use crate::consumer::{
    diet_of, field_from, field_of, hello_of, hello_text, next_said, note_of, note_text, offsets_of,
    progress_of, progress_text, record_bytes, record_said, Diet, ReportModel, ReportProblem,
};
use crate::json::{json_members, json_object, json_quoted, json_string, no_control, FieldModel};
use crate::text::{
    decimal, is_digit, joined, lemma_decimal, lemma_decimal_round_trip, lemma_find_is, split_once,
};
use crate::wire::{
    lacks, lemma_encode_ascii, lemma_encode_concat, lemma_encode_lacks, lemma_find_byte_is,
    lemma_split_first, lemma_split_last, lossy, split_bytes, RS, US,
};
use vstd::prelude::*;
use vstd::utf8::{encode_utf8, encode_utf8_decode_utf8, encode_utf8_valid_utf8};

verus! {

/// Whether a text can stand in a field: it holds neither a separator nor a
/// terminator.
pub open spec fn clean(s: Seq<char>) -> bool {
    forall|i: int| 0 <= i < s.len() ==> #[trigger] s[i] != '\u{1f}' && s[i] != '\0'
}

/// Whether a message is read as what it says, whatever follows it: in a stream
/// that was greeted, and a hello in any stream.
pub open spec fn reads_back(message: Seq<u8>, m: ReportModel) -> bool {
    forall|rest: Seq<u8>, said: bool|
        said || m is Hello ==> #[trigger] next_said(message + rest, said) == Ok::<
            _,
            ReportProblem,
        >(Some((m, message.len() as int, true)))
}

spec fn all_clean(parts: Seq<Seq<char>>) -> bool {
    forall|i: int| 0 <= i < parts.len() ==> clean(#[trigger] parts[i])
}

spec fn encoded_parts(parts: Seq<Seq<char>>) -> Seq<Seq<u8>> {
    Seq::new(parts.len(), |i: int| encode_utf8(parts[i]))
}

proof fn lemma_numbers_differ(a: char, b: char)
    requires
        a != b,
    ensures
        a as u32 != b as u32,
{
}

proof fn lemma_clean_bytes(s: Seq<char>)
    requires
        clean(s),
    ensures
        lacks(encode_utf8(s), US),
        lacks(encode_utf8(s), 0),
{
    assert forall|i: int| 0 <= i < s.len() implies (#[trigger] s[i]) as u32 != US && s[i] as u32
        != 0 by {
        assert(s[i] != '\u{1f}' && s[i] != '\0');
        lemma_numbers_differ(s[i], '\u{1f}');
        lemma_numbers_differ(s[i], '\0');
    }
    lemma_encode_lacks(s, US);
    lemma_encode_lacks(s, 0);
}

proof fn lemma_sep()
    ensures
        "\u{1f}"@ == seq!['\u{1f}'],
        encode_utf8("\u{1f}"@) == seq![US],
        encode_utf8("\u{1e}"@) == seq![RS],
{
    reveal_strlit("\u{1f}");
    reveal_strlit("\u{1e}");
    assert("\u{1f}"@ =~= seq!['\u{1f}']);
    assert("\u{1e}"@ =~= seq!['\u{1e}']);
    lemma_encode_ascii("\u{1f}"@);
    lemma_encode_ascii("\u{1e}"@);
    assert(encode_utf8("\u{1f}"@) =~= seq![US]);
    assert(encode_utf8("\u{1e}"@) =~= seq![RS]);
}

proof fn lemma_parts(parts: Seq<Seq<char>>)
    requires
        parts.len() > 0,
        all_clean(parts),
    ensures
        split_bytes(encode_utf8(joined(parts, "\u{1f}"@)), US) == encoded_parts(parts),
        lacks(encode_utf8(joined(parts, "\u{1f}"@)), 0),
    decreases parts.len(),
{
    let sep = "\u{1f}"@;
    lemma_sep();
    assert(clean(parts[parts.len() - 1]));
    lemma_clean_bytes(parts.last());
    let last = encode_utf8(parts.last());
    if parts.len() == 1 {
        lemma_split_first(last, US, Seq::empty());
        assert(encoded_parts(parts) =~= seq![last]);
    } else {
        let init = parts.drop_last();
        assert forall|i: int| 0 <= i < init.len() implies clean(#[trigger] init[i]) by {
            assert(clean(parts[i]));
        }
        lemma_parts(init);
        let a = joined(init, sep);
        lemma_encode_concat(a, sep);
        lemma_encode_concat(a + sep, parts.last());
        let whole = encode_utf8(joined(parts, sep));
        assert(whole == encode_utf8(a) + seq![US] + last);
        lemma_split_last(encode_utf8(a), US, last);
        assert(encoded_parts(parts) =~= encoded_parts(init).push(last));
        assert forall|i: int| 0 <= i < whole.len() implies #[trigger] whole[i] != 0 by {
            let n = encode_utf8(a).len();
            if i < n {
                assert(whole[i] == encode_utf8(a)[i]);
            } else if i > n {
                assert(whole[i] == last[i - n - 1]);
            }
        }
    }
}

/// A message of the given parts is read as what its record says.
proof fn lemma_message(parts: Seq<Seq<char>>, m: ReportModel)
    requires
        parts.len() > 0,
        all_clean(parts),
        forall|said: bool|
            said || m is Hello ==> #[trigger] record_said(
                encode_utf8("\u{1e}"@ + joined(parts, "\u{1f}"@)),
                said,
            ) == Ok::<Option<ReportModel>, ReportProblem>(Some(m)),
    ensures
        reads_back(record_bytes("\u{1e}"@ + joined(parts, "\u{1f}"@)), m),
{
    let s = "\u{1e}"@ + joined(parts, "\u{1f}"@);
    let raw = encode_utf8(s);
    let message = record_bytes(s);
    lemma_sep();
    lemma_parts(parts);
    lemma_encode_concat("\u{1e}"@, joined(parts, "\u{1f}"@));
    let body = encode_utf8(joined(parts, "\u{1f}"@));
    assert forall|rest: Seq<u8>, said: bool| said || m is Hello implies #[trigger] next_said(
        message + rest,
        said,
    ) == Ok::<_, ReportProblem>(Some((m, message.len() as int, true))) by {
        let data = message + rest;
        assert forall|i: int| 0 <= i < raw.len() implies #[trigger] data[i] != 0 by {
            assert(data[i] == raw[i]);
            if i > 0 {
                assert(raw[i] == body[i - 1]);
            }
        }
        assert(data[raw.len() as int] == 0);
        lemma_find_byte_is(data, 0, raw.len() as int);
        assert(data.take(raw.len() as int) =~= raw);
        assert(record_said(raw, said) == Ok::<Option<ReportModel>, ReportProblem>(Some(m)));
    }
}

/// The parts of a record, read back.
proof fn lemma_record(parts: Seq<Seq<char>>)
    requires
        parts.len() > 0,
        all_clean(parts),
    ensures
        ({
            let raw = encode_utf8("\u{1e}"@ + joined(parts, "\u{1f}"@));
            &&& raw.len() > 0
            &&& raw[0] == RS
            &&& split_bytes(raw.skip(1), US) == encoded_parts(parts)
        }),
{
    let raw = encode_utf8("\u{1e}"@ + joined(parts, "\u{1f}"@));
    lemma_sep();
    lemma_parts(parts);
    lemma_encode_concat("\u{1e}"@, joined(parts, "\u{1f}"@));
    assert(raw.skip(1) =~= encode_utf8(joined(parts, "\u{1f}"@)));
}

/// A field, read back.
proof fn lemma_field(key: Seq<char>, value: Seq<char>)
    requires
        forall|i: int| 0 <= i < key.len() ==> #[trigger] key[i] != '=',
    ensures
        lossy(encode_utf8(key + seq!['='] + value)) == key + seq!['='] + value,
        split_once(key + seq!['='] + value, '=') == Some((key, value)),
{
    let s = key + seq!['='] + value;
    encode_utf8_valid_utf8(s);
    encode_utf8_decode_utf8(s);
    assert forall|i: int| 0 <= i < key.len() implies #[trigger] s[i] != '=' by {
        assert(s[i] == key[i]);
    }
    lemma_find_is(s, '=', key.len() as int);
    assert(s.take(key.len() as int) =~= key);
    assert(s.skip(key.len() as int + 1) =~= value);
}

proof fn lemma_digits_clean(n: nat)
    ensures
        clean(decimal(n)),
{
    lemma_decimal(n);
    assert forall|i: int| 0 <= i < decimal(n).len() implies #[trigger] decimal(n)[i] != '\u{1f}'
        && decimal(n)[i] != '\0' by {
        assert(is_digit(decimal(n)[i]));
    }
}

proof fn lemma_clean_concat(a: Seq<char>, b: Seq<char>)
    requires
        clean(a),
        clean(b),
    ensures
        clean(a + b),
{
    assert forall|i: int| 0 <= i < (a + b).len() implies #[trigger] (a + b)[i] != '\u{1f}' && (a
        + b)[i] != '\0' by {
        if i < a.len() {
            assert(a[i] != '\u{1f}' && a[i] != '\0');
        } else {
            assert(b[i - a.len()] != '\u{1f}' && b[i - a.len()] != '\0');
        }
    }
}

/// A progress report is read as the store and the offset it was made of, as
/// long as the store's name can stand in a field.
pub proof fn a_progress_report_reads_back(id: Seq<char>, offset: u64)
    requires
        clean(id),
    ensures
        reads_back(
            record_bytes(progress_text(id, offset)),
            ReportModel::Progress { id, offset },
        ),
{
    let n = decimal(offset as nat);
    reveal_strlit("progress");
    reveal_strlit("hello");
    reveal_strlit("id");
    reveal_strlit("offset");
    reveal_strlit("id=");
    reveal_strlit("offset=");
    reveal_strlit("\u{1e}progress\u{1f}id=");
    reveal_strlit("\u{1f}offset=");
    lemma_sep();
    let p0 = "progress"@;
    let p1 = "id="@ + id;
    let p2 = "offset="@ + n;
    let parts = seq![p0, p1, p2];
    lemma_digits_clean(offset as nat);
    lemma_clean_concat("id="@, id);
    lemma_clean_concat("offset="@, n);
    assert(all_clean(parts));
    assert("id="@ =~= "id"@ + seq!['=']);
    assert("offset="@ =~= "offset"@ + seq!['=']);
    lemma_field("id"@, id);
    lemma_field("offset"@, n);
    let m = ReportModel::Progress { id, offset };
    let e = encoded_parts(parts);
    lemma_record(parts);
    assert(e[0] == encode_utf8(p0) && e[1] == encode_utf8(p1) && e[2] == encode_utf8(p2));
    lemma_encode_ascii(p0);
    lemma_encode_ascii("hello"@);
    assert(e[0].len() == 8 && encode_utf8("hello"@).len() == 5);
    assert("id"@ != "offset"@) by {
        assert("id"@.len() != "offset"@.len());
    }
    assert(field_of(e, "id"@) == Some(id));
    assert(field_from(e, 2, "offset"@) == Some(n));
    assert(field_of(e, "offset"@) == Some(n));
    lemma_decimal_round_trip(offset as nat, u64::MAX as nat);
    assert(progress_of(e, true) == Ok::<ReportModel, ReportProblem>(m));
    lemma_message(parts, m);
    lemma_joined3(p0, p1, p2, "\u{1f}"@);
    assert(progress_text(id, offset) =~= "\u{1e}"@ + joined(parts, "\u{1f}"@)) by {
        reveal_strlit("\u{1e}");
        reveal_strlit("\u{1f}");
        assert("\u{1e}progress\u{1f}id="@ =~= "\u{1e}"@ + "progress"@ + "\u{1f}"@ + "id="@);
        assert("\u{1f}offset="@ =~= "\u{1f}"@ + "offset="@);
    }
}

proof fn lemma_joined3(a: Seq<char>, b: Seq<char>, c: Seq<char>, sep: Seq<char>)
    ensures
        joined(seq![a], sep) == a,
        joined(seq![a, b], sep) == a + sep + b,
        joined(seq![a, b, c], sep) == a + sep + b + sep + c,
{
    assert(seq![a, b].drop_last() =~= seq![a]);
    assert(seq![a, b, c].drop_last() =~= seq![a, b]);
    assert(joined(seq![a], sep) == a);
    assert(joined(seq![a, b], sep) == a + sep + b);
}

proof fn lemma_joined_push(parts: Seq<Seq<char>>, x: Seq<char>, sep: Seq<char>)
    requires
        parts.len() > 0,
    ensures
        joined(parts.push(x), sep) == joined(parts, sep) + sep + x,
{
    assert(parts.push(x).drop_last() =~= parts);
}

/// A note is read as what it was made of, whatever text it carries: a text
/// that holds the very delimiters survives them, because it travels as a JSON
/// string. What the JSON encoding must be for that, `note` gets from the
/// encoder it calls.
pub proof fn a_note_reads_back(id: Option<Seq<char>>, offset: Option<u64>, said: Seq<char>)
    requires
        id is Some ==> clean(id->Some_0),
        json_string(json_quoted(said)) == Some(said),
        no_control(json_quoted(said)),
    ensures
        reads_back(
            record_bytes(note_text(id, offset, said)),
            ReportModel::Note { id, offset, text: said },
        ),
{
    let json = json_quoted(said);
    reveal_strlit("note");
    reveal_strlit("hello");
    reveal_strlit("progress");
    reveal_strlit("id");
    reveal_strlit("offset");
    reveal_strlit("text");
    reveal_strlit("id=");
    reveal_strlit("offset=");
    reveal_strlit("text=");
    reveal_strlit("\u{1e}");
    reveal_strlit("\u{1f}");
    reveal_strlit("\u{1e}note");
    reveal_strlit("\u{1f}id=");
    reveal_strlit("\u{1f}offset=");
    reveal_strlit("\u{1f}text=");
    lemma_sep();
    let sep = "\u{1f}"@;
    let p0 = "note"@;
    let pt = "text="@ + json;
    assert(clean(json)) by {
        assert forall|i: int| 0 <= i < json.len() implies #[trigger] json[i] != '\u{1f}' && json[i]
            != '\0' by {
            assert(json[i] as u32 >= 0x20);
        }
    }
    lemma_clean_concat("text="@, json);
    assert("text="@ =~= "text"@ + seq!['=']);
    lemma_field("text"@, json);
    assert("id="@ =~= "id"@ + seq!['=']);
    assert("offset="@ =~= "offset"@ + seq!['=']);
    assert("id"@.len() == 2 && "offset"@.len() == 6 && "text"@.len() == 4);
    let base = seq![p0];
    let with_id = match id {
        Some(i) => base.push("id="@ + i),
        None => base,
    };
    match id {
        Some(i) => {
            lemma_clean_concat("id="@, i);
            lemma_field("id"@, i);
            lemma_joined_push(base, "id="@ + i, sep);
        },
        None => {},
    }
    let with_offset = match offset {
        Some(n) => with_id.push("offset="@ + decimal(n as nat)),
        None => with_id,
    };
    match offset {
        Some(n) => {
            lemma_digits_clean(n as nat);
            lemma_clean_concat("offset="@, decimal(n as nat));
            lemma_field("offset"@, decimal(n as nat));
            lemma_decimal_round_trip(n as nat, u64::MAX as nat);
            lemma_joined_push(with_id, "offset="@ + decimal(n as nat), sep);
        },
        None => {},
    }
    let parts = with_offset.push(pt);
    lemma_joined_push(with_offset, pt, sep);
    assert(all_clean(parts)) by {
        assert(clean(p0));
    }
    let m = ReportModel::Note { id, offset, text: said };
    let e = encoded_parts(parts);
    lemma_record(parts);
    lemma_encode_ascii(p0);
    lemma_encode_ascii("hello"@);
    lemma_encode_ascii("progress"@);
    assert(e[0] == encode_utf8(p0));
    assert(e[0].len() == 4 && encode_utf8("hello"@).len() == 5 && encode_utf8(
        "progress"@,
    ).len() == 8);
    let last = (parts.len() - 1) as int;
    assert(e[last] == encode_utf8(pt));
    reveal_with_fuel(field_from, 5);
    assert(field_of(e, "text"@) == Some(json)) by {
        if id is Some {
            assert(e[1] == encode_utf8("id="@ + id->Some_0));
        }
        if offset is Some {
            assert(e[last - 1] == encode_utf8("offset="@ + decimal(offset->Some_0 as nat)));
        }
    }
    assert(field_of(e, "id"@) == id) by {
        if id is Some {
            assert(e[1] == encode_utf8("id="@ + id->Some_0));
        }
        if offset is Some {
            assert(e[last - 1] == encode_utf8("offset="@ + decimal(offset->Some_0 as nat)));
        }
    }
    assert(field_of(e, "offset"@) == (match offset {
        Some(n) => Some(decimal(n as nat)),
        None => None,
    })) by {
        if id is Some {
            assert(e[1] == encode_utf8("id="@ + id->Some_0));
        }
        if offset is Some {
            assert(e[last - 1] == encode_utf8("offset="@ + decimal(offset->Some_0 as nat)));
        }
    }
    assert(note_of(e, true) == Ok::<ReportModel, ReportProblem>(m));
    lemma_message(parts, m);
    assert("\u{1e}note"@ =~= "\u{1e}"@ + "note"@);
    assert("\u{1f}id="@ =~= sep + "id="@);
    assert("\u{1f}offset="@ =~= sep + "offset="@);
    assert("\u{1f}text="@ =~= sep + "text="@);
    assert(joined(base, sep) == p0);
    assert(note_text(id, offset, said) =~= "\u{1e}"@ + joined(parts, sep)) by {
        let a = "\u{1e}"@ + joined(with_id, sep);
        assert("\u{1e}note"@ + (match id {
            Some(id) => "\u{1f}id="@ + id,
            None => Seq::empty(),
        }) =~= a);
        assert(a + (match offset {
            Some(n) => "\u{1f}offset="@ + decimal(n as nat),
            None => Seq::empty(),
        }) =~= "\u{1e}"@ + joined(with_offset, sep));
    }
}

/// The offsets that members of whole numbers state, in their order.
pub open spec fn wholes(members: Seq<FieldModel>) -> Seq<(Seq<char>, u64)> {
    Seq::new(members.len(), |i: int| (members[i].key, members[i].value->Whole_0))
}

proof fn lemma_offsets(members: Seq<FieldModel>, n: int)
    requires
        0 <= n <= members.len(),
        forall|i: int| 0 <= i < members.len() ==> (#[trigger] members[i]).value is Whole,
    ensures
        offsets_of(members, n) == Ok::<Seq<(Seq<char>, u64)>, ReportProblem>(
            wholes(members).take(n),
        ),
    decreases n,
{
    if n > 0 {
        lemma_offsets(members, n - 1);
        assert(members[n - 1].value is Whole);
        assert(wholes(members).take(n) =~= wholes(members).take(n - 1).push(
            (members[n - 1].key, members[n - 1].value->Whole_0),
        ));
    } else {
        assert(wholes(members).take(0) =~= Seq::empty());
    }
}

/// A hello is read as the diet and the offsets it was made of. What the JSON
/// encoding must be for that, `hello` gets from the encoder it calls.
pub proof fn a_hello_reads_back(reads: Diet, members: Option<Seq<FieldModel>>)
    requires
        members is Some ==> {
            let m = members->Some_0;
            &&& json_object(json_members(m)) == Some(m)
            &&& no_control(json_members(m))
            &&& forall|i: int| 0 <= i < m.len() ==> (#[trigger] m[i]).value is Whole
        },
    ensures
        reads_back(
            record_bytes(hello_text(reads, members)),
            ReportModel::Hello {
                reads,
                holds: match members {
                    Some(m) => wholes(m),
                    None => Seq::empty(),
                },
            },
        ),
{
    reveal_strlit("hello");
    reveal_strlit("v");
    reveal_strlit("reads");
    reveal_strlit("holds");
    reveal_strlit("1");
    reveal_strlit("v=1");
    reveal_strlit("reads=");
    reveal_strlit("holds=");
    reveal_strlit("records");
    reveal_strlit("chunks");
    reveal_strlit("\u{1e}");
    reveal_strlit("\u{1f}");
    reveal_strlit("\u{1e}hello\u{1f}v=1\u{1f}reads=");
    reveal_strlit("\u{1f}holds=");
    lemma_sep();
    let sep = "\u{1f}"@;
    let p0 = "hello"@;
    let p1 = "v=1"@;
    let p2 = "reads="@ + reads.word();
    assert(p1 =~= "v"@ + seq!['='] + "1"@);
    assert("reads="@ =~= "reads"@ + seq!['=']);
    assert("holds="@ =~= "holds"@ + seq!['=']);
    lemma_field("v"@, "1"@);
    lemma_field("reads"@, reads.word());
    lemma_clean_concat("reads="@, reads.word());
    assert("v"@.len() == 1 && "reads"@.len() == 5 && "holds"@.len() == 5);
    assert("reads"@[0] == 'r' && "holds"@[0] == 'h');
    assert("records"@.len() == 7 && "chunks"@.len() == 6);
    assert(diet_of(reads.word()) == Some(reads));
    let base = seq![p0, p1, p2];
    lemma_joined3(p0, p1, p2, sep);
    let parts = match members {
        Some(m) => base.push("holds="@ + json_members(m)),
        None => base,
    };
    match members {
        Some(m) => {
            let json = json_members(m);
            assert(clean(json)) by {
                assert forall|i: int| 0 <= i < json.len() implies #[trigger] json[i] != '\u{1f}'
                    && json[i] != '\0' by {
                    assert(json[i] as u32 >= 0x20);
                }
            }
            lemma_clean_concat("holds="@, json);
            lemma_field("holds"@, json);
            lemma_joined_push(base, "holds="@ + json, sep);
            lemma_offsets(m, m.len() as int);
            assert(wholes(m).take(m.len() as int) =~= wholes(m));
        },
        None => {},
    }
    assert(all_clean(parts)) by {
        assert(clean(p0) && clean(p1) && clean(p2));
    }
    let holds = match members {
        Some(m) => wholes(m),
        None => Seq::empty(),
    };
    let m = ReportModel::Hello { reads, holds };
    let e = encoded_parts(parts);
    lemma_record(parts);
    assert(e[0] == encode_utf8(p0) && e[1] == encode_utf8(p1) && e[2] == encode_utf8(p2));
    reveal_with_fuel(field_from, 5);
    assert(field_of(e, "v"@) == Some("1"@));
    assert(field_of(e, "reads"@) == Some(reads.word()));
    match members {
        Some(ms) => {
            assert(e[3] == encode_utf8("holds="@ + json_members(ms)));
            assert(field_of(e, "holds"@) == Some(json_members(ms)));
        },
        None => {
            assert(field_of(e, "holds"@) is None);
        },
    }
    assert(hello_of(e) == Ok::<ReportModel, ReportProblem>(m));
    lemma_message(parts, m);
    assert(hello_text(reads, members) =~= "\u{1e}"@ + joined(parts, sep)) by {
        assert("\u{1e}hello\u{1f}v=1\u{1f}reads="@ =~= "\u{1e}"@ + p0 + sep + p1 + sep + "reads="@);
        assert("\u{1f}holds="@ =~= sep + "holds="@);
    }
}

} // verus!
