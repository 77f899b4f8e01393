use rmpv::encode::write_value;
use rmpv::Value;
use timberfs::forward::{
    check_opts, decode_message, encode_ack, next_message, payload_no_newline, seed_bark,
    take_message, time_to_ms, unknown_tag, with_trailing_newline, Acks, Connection, DecodeError, ForwardOpts,
    Next, PartialReassembler, PARTIAL_MAX_BYTES, PARTIAL_MAX_OUTSTANDING,
};
use timberfs::json::Json;
use timberfs::msgpack::{find_field, read_msg, record_str, Msg};

/// The time that stands in for one that cannot be read.
const NOW: u64 = 1_800_000_000_000;


/// The value as the wire hands it over.
fn msg_of(v: &Value) -> Msg {
    let bytes = encode(v);
    let (msg, used) = read_msg(&bytes).unwrap();
    assert_eq!(used, bytes.len());
    msg
}

fn encode(v: &Value) -> Vec<u8> {
    let mut buf = Vec::new();
    write_value(&mut buf, v).unwrap();
    buf
}

fn decode_bytes(bytes: &[u8]) -> Value {
    let mut cursor = std::io::Cursor::new(bytes);
    rmpv::decode::read_value(&mut cursor).unwrap()
}

fn record(pairs: &[(&str, &str)]) -> Value {
    Value::Map(
        pairs
            .iter()
            .map(|(k, v)| (Value::from(*k), Value::from(*v)))
            .collect(),
    )
}

#[test]
fn message_mode_decodes() {
    let msg = Value::Array(vec![
        Value::from("app.log"),
        Value::from(1_700_000_000u64),
        record(&[("log", "hello")]),
    ]);
    let decoded = decode_message(msg_of(&msg), NOW).ok().unwrap();
    assert_eq!(decoded.tag, "app.log");
    assert_eq!(decoded.entries.len(), 1);
    assert_eq!(decoded.entries[0].0, 1_700_000_000_000);
    assert_eq!(record_str(&decoded.entries[0].1, "log").as_deref(), Some("hello"));
    assert!(decoded.chunk.is_none());
}

#[test]
fn forward_mode_decodes_batch() {
    let msg = Value::Array(vec![
        Value::from("app.log"),
        Value::Array(vec![
            Value::Array(vec![Value::from(100u64), record(&[("log", "one")])]),
            Value::Array(vec![Value::from(200u64), record(&[("log", "two")])]),
        ]),
    ]);
    let decoded = decode_message(msg_of(&msg), NOW).ok().unwrap();
    assert_eq!(decoded.entries.len(), 2);
    assert_eq!(decoded.entries[0].0, 100_000);
    assert_eq!(record_str(&decoded.entries[0].1, "log").as_deref(), Some("one"));
    assert_eq!(decoded.entries[1].0, 200_000);
    assert_eq!(record_str(&decoded.entries[1].1, "log").as_deref(), Some("two"));
}

fn msgpack_raw_str(bytes: &[u8]) -> Vec<u8> {
    let mut out = Vec::new();
    let len = bytes.len();
    if len <= 31 {
        out.push(0xa0 | len as u8);
    } else if len <= 255 {
        out.push(0xd9);
        out.push(len as u8);
    } else {
        out.push(0xda);
        out.extend_from_slice(&(len as u16).to_be_bytes());
    }
    out.extend_from_slice(bytes);
    out
}

fn msgpack_fixarray(n: usize) -> Vec<u8> {
    vec![0x90 | n as u8]
}

#[test]
fn packed_forward_str_blob_decodes() {
    let mut blob = Vec::new();
    blob.extend(encode(&Value::Array(vec![
        Value::from(1u64),
        record(&[("log", "a")]),
    ])));
    blob.extend(encode(&Value::Array(vec![
        Value::from(2u64),
        record(&[("log", "b")]),
    ])));
    let mut wire = msgpack_fixarray(2);
    wire.extend(encode(&Value::from("app.log")));
    wire.extend(msgpack_raw_str(&blob));
    let (msg, _) = read_msg(&wire).unwrap();
    let decoded = decode_message(msg, NOW).ok().unwrap();
    assert_eq!(decoded.entries.len(), 2);
    assert_eq!(record_str(&decoded.entries[0].1, "log").as_deref(), Some("a"));
    assert_eq!(record_str(&decoded.entries[1].1, "log").as_deref(), Some("b"));
}

#[test]
fn packed_forward_bin_blob_decodes() {
    let mut blob = Vec::new();
    blob.extend(encode(&Value::Array(vec![
        Value::from(1u64),
        record(&[("log", "a")]),
    ])));
    let msg = Value::Array(vec![Value::from("app.log"), Value::Binary(blob)]);
    let decoded = decode_message(msg_of(&msg), NOW).ok().unwrap();
    assert_eq!(decoded.entries.len(), 1);
    assert_eq!(record_str(&decoded.entries[0].1, "log").as_deref(), Some("a"));
}

#[test]
fn event_time_ext_decodes() {
    let mut data = Vec::new();
    data.extend_from_slice(&1_700_000_000u32.to_be_bytes());
    data.extend_from_slice(&500_000_000u32.to_be_bytes());
    let msg = Value::Array(vec![
        Value::from("app.log"),
        Value::Ext(0, data),
        record(&[("log", "hi")]),
    ]);
    let decoded = decode_message(msg_of(&msg), NOW).ok().unwrap();
    assert_eq!(decoded.entries[0].0, 1_700_000_000_500);
}

#[test]
fn float_time_tolerated() {
    let msg = Value::Array(vec![
        Value::from("app.log"),
        Value::F64(1_700_000_000.25),
        record(&[("log", "hi")]),
    ]);
    let decoded = decode_message(msg_of(&msg), NOW).ok().unwrap();
    assert_eq!(decoded.entries[0].0, 1_700_000_000_250);
}

#[test]
fn zero_time_falls_back_to_now() {
    let before = NOW;
    let msg = Value::Array(vec![
        Value::from("app.log"),
        Value::from(0u64),
        record(&[("log", "hi")]),
    ]);
    let decoded = decode_message(msg_of(&msg), NOW).ok().unwrap();
    assert!(decoded.entries[0].0 >= before);
}

#[test]
fn ack_chunk_extracted_from_message_mode() {
    let option = Value::Map(vec![(Value::from("chunk"), Value::from("abc123"))]);
    let msg = Value::Array(vec![
        Value::from("app.log"),
        Value::from(1u64),
        record(&[("log", "hi")]),
        option,
    ]);
    let decoded = decode_message(msg_of(&msg), NOW).ok().unwrap();
    assert_eq!(decoded.chunk.as_deref(), Some("abc123"));
}

#[test]
fn ack_chunk_extracted_from_forward_mode() {
    let option = Value::Map(vec![(Value::from("chunk"), Value::from("xyz"))]);
    let msg = Value::Array(vec![
        Value::from("app.log"),
        Value::Array(vec![Value::Array(vec![
            Value::from(1u64),
            record(&[("log", "hi")]),
        ])]),
        option,
    ]);
    let decoded = decode_message(msg_of(&msg), NOW).ok().unwrap();
    assert_eq!(decoded.chunk.as_deref(), Some("xyz"));
}

#[test]
fn gzip_packed_forward_rejected() {
    let option = Value::Map(vec![(Value::from("compressed"), Value::from("gzip"))]);
    let msg = Value::Array(vec![
        Value::from("app.log"),
        Value::Binary(vec![1, 2, 3]),
        option,
    ]);
    match decode_message(msg_of(&msg), NOW) {
        Err(DecodeError::Unsupported(what)) => assert!(what.contains("gzip")),
        _ => panic!("expected Unsupported"),
    }
}

#[test]
fn round_trip_through_the_wire() {
    let msg = Value::Array(vec![
        Value::from("wiretest"),
        Value::from(42u64),
        record(&[("log", "round-trip")]),
    ]);
    let bytes = encode(&msg);
    let decoded_val = decode_bytes(&bytes);
    let decoded = decode_message(msg_of(&decoded_val), NOW).ok().unwrap();
    assert_eq!(decoded.tag, "wiretest");
    assert_eq!(record_str(&decoded.entries[0].1, "log").as_deref(), Some("round-trip"));
}

#[test]
fn payload_key_fallback_to_json() {
    let rec = record(&[("source", "stdout")]);
    let bytes = payload_no_newline(&msg_of(&rec), "log");
    let parsed: serde_json::Value = serde_json::from_slice(&bytes).unwrap();
    assert_eq!(parsed["source"], "stdout");
}

#[test]
fn payload_key_present_uses_it_directly() {
    let rec = record(&[("log", "the actual line"), ("source", "stdout")]);
    let bytes = payload_no_newline(&msg_of(&rec), "log");
    assert_eq!(bytes, b"the actual line");
}

#[test]
fn payload_gets_exactly_one_trailing_newline() {
    assert_eq!(with_trailing_newline(b"abc".to_vec()), b"abc\n");
    assert_eq!(with_trailing_newline(b"abc\n".to_vec()), b"abc\n");
}

fn piece(id: &str, ordinal: &str, last: bool, log: &str) -> Msg {
    msg_of(&partial(id, ordinal, last, log))
}

fn partial(id: &str, ordinal: &str, last: bool, log: &str) -> Value {
    record(&[
        ("partial_message", "true"),
        ("partial_id", id),
        ("partial_ordinal", ordinal),
        ("partial_last", if last { "true" } else { "false" }),
        ("log", log),
    ])
}

#[test]
fn partial_reassembly_merges_in_arrival_order() {
    let mut r = PartialReassembler::new();
    assert!(r
        .feed(100, &piece("p1", "0", false, "hello "), "log")
        .is_empty());
    assert!(r
        .feed(101, &piece("p1", "1", false, "cruel "), "log")
        .is_empty());
    let out = r.feed(102, &piece("p1", "2", true, "world"), "log");
    assert_eq!(out.len(), 1);
    assert_eq!(out[0].0, 100);
    assert_eq!(out[0].1, b"hello cruel world\n");
}

#[test]
fn partial_reassembly_tracks_independent_ids() {
    let mut r = PartialReassembler::new();
    assert!(r.feed(1, &piece("a", "0", false, "A1"), "log").is_empty());
    assert!(r.feed(2, &piece("b", "0", false, "B1"), "log").is_empty());
    let out_a = r.feed(3, &piece("a", "1", true, "A2"), "log");
    assert_eq!(out_a[0].1, b"A1A2\n");
    let out_b = r.feed(4, &piece("b", "1", true, "B2"), "log");
    assert_eq!(out_b[0].1, b"B1B2\n");
}

#[test]
fn non_partial_entries_pass_through_immediately() {
    let mut r = PartialReassembler::new();
    let out = r.feed(1, &msg_of(&record(&[("log", "plain line")])), "log");
    assert_eq!(out, vec![(1, b"plain line\n".to_vec())]);
}

#[test]
fn partial_guard_caps_buffer_size() {
    let mut r = PartialReassembler::new();
    let big = "x".repeat(PARTIAL_MAX_BYTES + 1);
    let out = r.feed(1, &piece("huge", "0", false, &big), "log");
    assert_eq!(out.len(), 1);
    assert!(!r.holds("huge"));
}

#[test]
fn partial_guard_caps_outstanding_ids() {
    let mut r = PartialReassembler::new();
    for i in 0..PARTIAL_MAX_OUTSTANDING {
        let id = format!("id{i}");
        assert!(r.feed(1, &piece(&id, "0", false, "x"), "log").is_empty());
    }
    assert_eq!(r.outstanding(), PARTIAL_MAX_OUTSTANDING);
    let out = r.feed(1, &piece("one-too-many", "0", false, "y"), "log");
    assert_eq!(out.len(), 1);
    assert!(!r.holds("one-too-many"));
    assert_eq!(r.outstanding(), PARTIAL_MAX_OUTSTANDING);
}

fn text(s: &str) -> Msg {
    Msg::Text(s.as_bytes().to_vec())
}

#[test]
fn every_malformed_message_says_what_is_wrong() {
    let bad = |v: Value| match decode_message(msg_of(&v), NOW) {
        Err(DecodeError::Invalid(s)) => s,
        _ => panic!("expected Invalid"),
    };
    assert_eq!(bad(Value::from(1)), "top-level msgpack value must be an array");
    assert_eq!(
        bad(Value::Array(vec![Value::from("t")])),
        "message array has 1 element(s), need at least [tag, ...]"
    );
    assert_eq!(
        bad(Value::Array(vec![Value::from(1), Value::from(2)])),
        "tag (element 0) must be a string"
    );
    assert_eq!(
        bad(Value::Array(vec![Value::from("t"), Value::from(2)])),
        "Message mode needs [tag, time, record]"
    );
    assert_eq!(
        bad(Value::Array(vec![Value::from("t"), Value::Nil])),
        "cannot classify message: element 1 is neither a time, an array, nor a string/bin"
    );
    assert_eq!(
        bad(Value::Array(vec![Value::from("t"), Value::Array(vec![Value::Nil])])),
        "entry must be [time, record]"
    );
    assert_eq!(
        bad(Value::Array(vec![
            Value::from("t"),
            Value::Array(vec![Value::Array(vec![])])
        ])),
        "entry needs [time, record]"
    );
    let torn = bad(Value::Array(vec![Value::from("t"), Value::Binary(vec![0x92, 0x01])]));
    assert!(torn.starts_with("PackedForward blob entry: "), "{torn}");
    let gzip = DecodeError::Unsupported("X".into());
    assert_eq!(gzip.message(), "X is not supported");
}

#[test]
fn a_time_is_read_in_every_form_it_comes_in() {
    let ms = |v: Value| time_to_ms(&msg_of(&v), NOW);
    assert_eq!(ms(Value::from(7u64)), 7_000);
    assert_eq!(ms(Value::from(u64::MAX)), u64::MAX);
    assert_eq!(ms(Value::from(-7)), NOW);
    assert_eq!(ms(Value::Nil), NOW);
    assert_eq!(ms(Value::F64(0.0)), NOW);
    assert_eq!(ms(Value::F64(-1.0)), NOW);
    assert_eq!(ms(Value::F64(f64::NAN)), NOW);
    assert_eq!(ms(Value::F64(f64::INFINITY)), u64::MAX);
    assert_eq!(ms(Value::F32(f32::INFINITY)), u64::MAX);
    assert_eq!(ms(Value::F32(-0.5)), NOW);
    for f in [0.1f64, 1.0, 2.675, 1e-300, 5e-324, 1e18, 1e300, 1_700_000_000.123456] {
        assert_eq!(ms(Value::F64(f)), (f * 1000.0) as u64, "{f}");
    }
    for f in [0.1f32, 1.5, 3.4e38, 1e-40, 16_777_216.0] {
        assert_eq!(ms(Value::F32(f)), (f as f64 * 1000.0) as u64, "{f}");
    }
    assert_eq!(ms(Value::Ext(0, vec![0; 8])), NOW);
    assert_eq!(ms(Value::Ext(1, vec![1; 8])), NOW);
    assert_eq!(ms(Value::Ext(0, vec![0, 0, 0, 2, 0, 0, 0, 0])), 2_000);
}

#[test]
fn a_record_without_a_payload_is_written_as_json() {
    let rec = Value::Map(vec![
        (Value::from("z"), Value::from(true)),
        (Value::from("a"), Value::Array(vec![Value::Nil, Value::from(-3), Value::from(4u8)])),
        (Value::from("f"), Value::F64(0.5)),
        (Value::from("n"), Value::F64(f64::NAN)),
        (Value::from("s"), Value::from("q\"uote")),
        (Value::from("e"), Value::Ext(-2, vec![1, 2, 3])),
        (Value::from(5), Value::from(false)),
        (Value::from("a"), Value::from("last one wins")),
    ]);
    let json = String::from_utf8(payload_no_newline(&msg_of(&rec), "log")).unwrap();
    let parsed: serde_json::Value = serde_json::from_str(&json).unwrap();
    assert_eq!(parsed.to_string(), json, "compact, in the order of the keys");
    assert_eq!(parsed["a"], "last one wins");
    assert_eq!(parsed["e"]["ext_type"], -2);
    assert_eq!(parsed["e"]["ext_data_len"], 3);
    assert!(parsed["n"].is_null());
    assert_eq!(parsed["f"], 0.5);
    assert_eq!(parsed["s"], "q\"uote");
    assert_eq!(parsed.as_object().unwrap().len(), 7);
}

#[test]
fn a_tag_that_is_no_text_is_still_a_tag() {
    let mut wire = vec![0x93, 0xa2, 0xff, 0x61, 0x01];
    wire.extend(encode(&record(&[("log", "x")])));
    match next_message(&wire, "peer", NOW) {
        Next::Message(d, used) => {
            assert_eq!(d.tag, "\u{fffd}a");
            assert_eq!(used, wire.len());
        }
        other => panic!("{other:?}"),
    }
}

#[test]
fn a_connection_is_read_message_by_message() {
    let one = encode(&Value::Array(vec![
        Value::from("t"),
        Value::from(1u64),
        record(&[("log", "a")]),
    ]));
    let mut wire = one.clone();
    wire.extend(&one[..3]);
    match next_message(&wire, "peer", NOW) {
        Next::Message(d, used) => {
            assert_eq!((d.tag.as_str(), used), ("t", one.len()));
        }
        other => panic!("{other:?}"),
    }
    assert_eq!(next_message(&one[..3], "peer", NOW), Next::More);
    assert_eq!(next_message(b"", "peer", NOW), Next::More);
    assert_eq!(
        next_message(&encode(&Value::Nil), "10.0.0.1:9", NOW),
        Next::Close(
            "timberfs: forward-intake: 10.0.0.1:9: top-level msgpack value must be an array; closing connection (a desynced msgpack stream is unrecoverable)".into()
        )
    );
    let gzip = encode(&Value::Array(vec![
        Value::from("t"),
        Value::Binary(vec![]),
        Value::Map(vec![(Value::from("compressed"), Value::from("gzip"))]),
    ]));
    assert_eq!(
        next_message(&gzip, "p", NOW),
        Next::Close(
            "timberfs: forward-intake: p: CompressedPackedForward (gzip) is not supported; closing connection".into()
        )
    );
    let deep = vec![0x91u8; 5000];
    match next_message(&deep, "p", NOW) {
        Next::Close(s) => assert!(s.contains("decode error"), "{s}"),
        other => panic!("{other:?}"),
    }
}

#[test]
fn a_packed_batch_says_what_a_listed_one_says_here_too() {
    let pairs = vec![
        Value::Array(vec![Value::from(1u64), record(&[("log", "a")])]),
        Value::Array(vec![Value::from(2u64), record(&[("log", "b")])]),
    ];
    let blob: Vec<u8> = pairs.iter().flat_map(encode).collect();
    let listed = Value::Array(vec![Value::from("t"), Value::Array(pairs)]);
    let packed = Value::Array(vec![Value::from("t"), Value::Binary(blob)]);
    let a = decode_message(msg_of(&listed), NOW).ok().unwrap();
    let b = decode_message(msg_of(&packed), NOW).ok().unwrap();
    assert_eq!(a, b);
}

#[test]
fn a_message_becomes_the_lines_to_write() {
    let mut r = PartialReassembler::new();
    let mut first = partial("p", "0", false, "one ");
    if let Value::Map(m) = &mut first {
        m.push((Value::from("container_name"), Value::from("web")));
    }
    let msg = Value::Array(vec![
        Value::from("t"),
        Value::Array(vec![
            Value::Array(vec![Value::from(1u64), first]),
            Value::Array(vec![Value::from(2u64), record(&[("log", "other"), ("container_id", "c1")])]),
            Value::Array(vec![Value::from(3u64), partial("p", "1", true, "two")]),
        ]),
    ]);
    let decoded = decode_message(msg_of(&msg), NOW).ok().unwrap();
    let (lines, notes) = take_message(&mut r, &decoded, "log");
    assert!(notes.is_empty());
    assert_eq!(lines.len(), 2);
    assert_eq!((lines[0].time_ms, lines[0].payload.as_slice()), (2_000, &b"other\n"[..]));
    assert_eq!(lines[0].container_id.as_deref(), Some("c1"));
    assert_eq!((lines[1].time_ms, lines[1].payload.as_slice()), (1_000, &b"one two\n"[..]));
    assert_eq!(lines[1].container_name, None);
    assert_eq!(r.outstanding(), 0);
}

#[test]
fn a_fragment_without_an_id_waits_for_nothing() {
    let mut r = PartialReassembler::new();
    let rec = record(&[("partial_message", "true"), ("log", "alone")]);
    assert_eq!(r.feed(9, &msg_of(&rec), "log"), vec![(9, b"alone\n".to_vec())]);
}

#[test]
fn an_acknowledgement_waits_for_durability_and_for_a_store() {
    let mut acks = Acks::new();
    let chunk = Some("abc".to_string());
    assert!(!acks.register(&chunk, "a.log", false, 1), "no store, no acknowledgement");
    assert!(!acks.register(&None, "a.log", true, 1));
    assert!(acks.register(&chunk, "a.log", true, 1));
    assert!(acks.register(&Some("def".into()), "b.log", true, 2));
    assert!(acks.drain("a.log", false).is_empty(), "not durable yet");
    assert!(acks.waits("a.log"));
    let sent = acks.drain("a.log", true);
    assert_eq!(sent.len(), 1);
    assert_eq!((sent[0].chunk.as_str(), sent[0].conn_id), ("abc", 1));
    assert!(acks.drain("a.log", true).is_empty(), "sent once");
    acks.drop_connection(1);
    assert!(acks.waits("b.log"), "another connection's stays");
    acks.drop_connection(2);
    assert!(!acks.waits("b.log"));
}

#[test]
fn an_acknowledgement_reads_back() {
    for chunk in ["abc123".to_string(), "x".repeat(40), "y".repeat(300), "z".repeat(70_000)] {
        let bytes = encode_ack(&chunk);
        let (msg, used) = read_msg(&bytes).unwrap();
        assert_eq!(used, bytes.len());
        assert_eq!(record_str(&msg, "ack"), Some(chunk));
    }
    assert_eq!(encode_ack("ab"), b"\x81\xa3ack\xa2ab");
}

#[test]
fn a_value_that_cannot_be_read_says_whether_it_ended() {
    let e = read_msg(&[0x92, 0x01]).unwrap_err();
    assert!(e.ended);
    let e = read_msg(&vec![0x91u8; 5000]).unwrap_err();
    assert!(!e.ended);
    assert_eq!(e.said, "depth limit exceeded");
    assert!(find_field(&text("no table"), "k").is_none());
}

#[test]
fn a_new_store_is_seeded_with_what_is_known_of_it() {
    let opts = ForwardOpts {
        payload_key: "log".into(),
        retain: Some("30d".into()),
        retain_size: None,
        index: true,
        auto_create: true,
    };
    assert!(check_opts(&opts).is_ok());
    let m = seed_bark("web", &Some("c1".into()), &None, &opts);
    assert_eq!(
        m.keys(),
        ["container_id", "derived_op", "index", "retain", "tag", "wal"]
    );
    assert_eq!(m.get("wal"), Some(&Json::Bool(true)));
    assert_eq!(m.get("tag"), Some(&Json::Text("web".into())));
    assert_eq!(m.get("derived_op"), Some(&Json::Text("forward-intake".into())));
    assert_eq!(unknown_tag("web"), "unknown tag \"web\"");
    let bad = ForwardOpts {
        retain: Some("soon".into()),
        ..opts
    };
    assert!(check_opts(&bad).is_err());
}

#[test]
fn a_connection_takes_bytes_however_they_are_cut() {
    let first = encode(&Value::Array(vec![
        Value::from("app"),
        Value::from(1_700_000_000u64),
        record(&[("log", "hello"), ("container_id", "c1"), ("container_name", "web")]),
        Value::Map(vec![(Value::from("chunk"), Value::from("k1"))]),
    ]));
    let second = encode(&Value::Array(vec![
        Value::from("other"),
        Value::from(1_700_000_001u64),
        record(&[("log", "again")]),
    ]));
    let all = [first.clone(), second].concat();
    for k in 0..all.len() {
        let mut conn = Connection::new();
        let (mut batches, closed) = conn.receive(&all[..k], "peer", "log", NOW);
        assert!(closed.is_none());
        let (more, closed) = conn.receive(&all[k..], "peer", "log", NOW);
        assert!(closed.is_none());
        batches.extend(more);
        assert_eq!(batches.len(), 2);
        assert_eq!((batches[0].tag.as_str(), batches[0].chunk.as_deref()), ("app", Some("k1")));
        let line = &batches[0].lines[0];
        assert_eq!((line.time_ms, line.payload.as_slice()), (1_700_000_000_000, &b"hello\n"[..]));
        assert_eq!(line.container_id.as_deref(), Some("c1"));
        assert_eq!(line.container_name.as_deref(), Some("web"));
        assert_eq!((batches[1].tag.as_str(), batches[1].chunk.as_deref()), ("other", None));
        assert_eq!(batches[1].lines[0].payload, b"again\n");
        assert!(conn.bytes.is_empty());
    }
}

#[test]
fn what_came_before_a_broken_message_is_kept() {
    let good = encode(&Value::Array(vec![
        Value::from("app"),
        Value::from(1_700_000_000u64),
        record(&[("log", "hello")]),
    ]));
    let bad = encode(&Value::from("no message"));
    let mut conn = Connection::new();
    let (batches, closed) = conn.receive(&[good, bad].concat(), "peer", "log", NOW);
    assert_eq!(batches.len(), 1);
    let said = closed.unwrap();
    assert!(said.starts_with("timberfs: forward-intake: peer: "), "{said}");
    assert!(said.contains("closing connection"), "{said}");
}

#[test]
fn a_split_line_is_put_together_across_messages() {
    let mut conn = Connection::new();
    let message = |last: bool, log: &str| {
        encode(&Value::Array(vec![
            Value::from("app"),
            Value::from(1_700_000_000u64),
            partial("p", "1", last, log),
        ]))
    };
    let (batches, _) = conn.receive(&message(false, "one "), "peer", "log", NOW);
    assert!(batches[0].lines.is_empty());
    let (batches, _) = conn.receive(&message(true, "line"), "peer", "log", NOW);
    assert_eq!(batches[0].lines[0].payload, b"one line\n");
}

#[test]
fn a_line_that_a_bound_lets_go_is_told_of() {
    let mut r = PartialReassembler::new();
    let half = "x".repeat(PARTIAL_MAX_BYTES);
    assert!(r.warning(&piece("huge", "0", false, &half), "log").is_none());
    r.feed(1, &piece("huge", "0", false, &half), "log");
    let over = piece("huge", "1", false, "y");
    assert_eq!(
        r.warning(&over, "log").unwrap(),
        "timberfs: forward-intake: partial message huge exceeded 16777216 bytes; emitting what's buffered and resetting it"
    );
    assert_eq!(r.feed(2, &over, "log").len(), 1);
    assert!(r.warning(&msg_of(&record(&[("log", "whole")])), "log").is_none());

    let mut conn = Connection::new();
    let entry = |id: &str| Value::Array(vec![Value::from(1u64), partial(id, "0", false, "x")]);
    let many = (0..=PARTIAL_MAX_OUTSTANDING).map(|i| entry(&format!("id{i}"))).collect();
    let msg = encode(&Value::Array(vec![Value::from("t"), Value::Array(many)]));
    let (batches, closed) = conn.receive(&msg, "peer", "log", NOW);
    assert!(closed.is_none());
    assert_eq!(
        batches[0].notes,
        ["timberfs: forward-intake: 1000 outstanding partial message ids reached; emitting id1000 unbuffered"]
    );
    assert_eq!(batches[0].lines.len(), 1);
}
