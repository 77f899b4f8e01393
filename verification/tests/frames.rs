use timberfs::follower::{Matched, Positions};
use timberfs::frame::{decode, decode_hello, Frame, Framed, Run};
use timberfs::frames::{
    accepted_frame, conflict_frame, find_destination, frame_bytes, hello_bytes, incoming,
    open_stream, refused, registration_id, Incoming, IntakeOpts, OpenedTwice, Step, Streams,
    CHUNKS_PER_TURN,
};
use timberfs::json::{Fields, Json};
use timberfs::sending::{
    after_pass, answer, close_missing, connects, needs_stream, note_ack, note_unidentified, opened,
    save_position, ship_turn, sort_sources, stream_sent, AfterPass, Answer, LastSent, Sender,
    Sent, SendOpts, Served, Source, Sources, StreamSent,
};

const ID: &str = "0d01f72b-cc35-4da6-aa3a-77a6ced1b996";

fn opts(auto: bool) -> IntakeOpts {
    IntakeOpts {
        listen: String::new(),
        into_dir: "/recv".into(),
        auto_create: auto,
        index: false,
        wal: false,
        exit_on_upgrade: false,
    }
}

fn source(id: &str) -> Source {
    Source {
        id: id.into(),
        path: format!("/d/{id}.log"),
    }
}

fn run(start: u64, end: u64) -> Run {
    Run { start, end }
}

fn served(chunks: u64, last: Option<u64>) -> Served {
    Served {
        chunks,
        comp_bytes: chunks * 10,
        last_examined: last,
        last_sent: last.filter(|_| chunks > 0).map(|seq| LastSent {
            seq,
            offset: seq * 100,
            last_write_ms: 1_000 + seq,
        }),
    }
}

fn coverage(stream: u32, runs: Vec<Run>) -> Framed {
    Framed {
        stream,
        frame: Frame::Coverage { runs },
    }
}

#[test]
fn the_receiver_says_where_it_left_off_and_the_sender_resumes_there() {
    let f = Framed {
        stream: 0,
        frame: accepted_frame(None, vec![run(0, 2)]),
    };
    let runs = match answer(f, 0) {
        Answer::Accepted(runs) => runs,
        other => panic!("{other:?}"),
    };
    let mut s = opened(0, &source("a"), runs);
    assert_eq!(s.accepted_at, vec![run(0, 2)]);
    assert_eq!((s.resume, s.skipped), (3, 3));
    assert_eq!(ship_turn(&mut s, &served(2, Some(4))), 2, "only what it lacked");
    let sent = stream_sent(s);
    assert_eq!((sent.chunks, sent.skipped_already_held), (2, 3));
}

#[test]
fn nothing_new_to_send_is_a_successful_no_op() {
    let mut s = opened(0, &source("a"), vec![run(0, 1)]);
    assert_eq!(ship_turn(&mut s, &served(0, None)), 0);
    assert_eq!((s.chunks, s.comp_bytes), (0, 0));
    assert_eq!(after_pass(false, 0), AfterPass::End);
    assert_eq!(after_pass(true, 0), AfterPass::Sleep);
    assert_eq!(after_pass(false, 2), AfterPass::Again);
}

#[test]
fn a_pass_resumes_past_what_it_examined_not_past_what_it_sent() {
    let mut s = opened(0, &source("a"), vec![]);
    assert_eq!(ship_turn(&mut s, &served(3, Some(5))), 3);
    assert_eq!(s.resume, 6, "the next pass starts at 6, not at 3");
    assert_eq!(ship_turn(&mut s, &served(0, Some(8))), 0);
    assert_eq!(s.resume, 9);
    ship_turn(&mut s, &served(0, Some(1)));
    assert_eq!(s.resume, 9, "never back");
}

#[test]
fn an_unreceived_store_is_refused_when_auto_create_is_off() {
    let none: Vec<String> = vec![];
    let r = open_stream(&opts(false), Some(ID), &none, &none).unwrap_err();
    assert!(r.reason.contains("--auto-create"), "{}", r.reason);
    assert!(r.reason.contains("origin_id="), "it names the other fix: {}", r.reason);
    assert_eq!(r.holder, [0u8; 16]);
    assert_eq!(
        open_stream(&opts(true), Some(ID), &none, &none).unwrap(),
        format!("/recv/{ID}/{ID}")
    );
    let anonymous = open_stream(&opts(true), None, &none, &none).unwrap_err();
    assert!(anonymous.reason.contains("carries no store identity"));
}

#[test]
fn a_pre_declared_destination_is_found_by_the_origin_it_names() {
    let slot = vec!["/recv/slot/slot.log".to_string()];
    let own = vec!["/recv/x/x".to_string()];
    let none: Vec<String> = vec![];
    assert_eq!(find_destination("/recv", ID, &slot, &own), Ok(Some(slot[0].clone())));
    assert_eq!(find_destination("/recv", ID, &none, &own), Ok(Some(own[0].clone())));
    assert_eq!(find_destination("/recv", ID, &none, &none), Ok(None));
    let two = vec!["/recv/a".to_string(), "/recv/b".to_string()];
    assert_eq!(
        find_destination("/recv", ID, &two, &own),
        Err(format!(
            "2 stores under /recv declare origin_id={ID}, so there is no one store to receive into:\n  /recv/a\n  /recv/b"
        ))
    );
}

#[test]
fn a_second_origin_is_refused_with_a_reason_the_sender_can_read() {
    let mut m = Fields::new();
    m.insert("id", Json::Text(ID.into()));
    m.insert("origin_id", Json::Text("899c8aad-4d3d-4c60-b125-ee5ce7e1cc86".into()));
    assert_eq!(registration_id(Some(&m))[0], 0x0d);
    let frame = conflict_frame(refused("one store, one origin", Some(&m)));
    match answer(Framed { stream: 4, frame: frame.clone() }, 4) {
        Answer::Refused(s) => assert_eq!(
            s,
            "one store, one origin (held by origin 899c8aad-4d3d-4c60-b125-ee5ce7e1cc86)"
        ),
        other => panic!("{other:?}"),
    }
    assert_eq!(answer(Framed { stream: 5, frame }, 4), Answer::Other);
    let nobody = conflict_frame(refused("no", None));
    assert_eq!(answer(Framed { stream: 4, frame: nobody }, 4), Answer::Refused("no".into()));
}

#[test]
fn a_refused_store_leaves_the_rest_shipping() {
    let live = vec![opened(0, &source("b"), vec![])];
    let refused = vec!["a".to_string()];
    assert!(!needs_stream(&live, &refused, "a"), "tried once");
    assert!(!needs_stream(&live, &refused, "b"), "already shipping");
    assert!(needs_stream(&live, &refused, "c"));
}

#[test]
fn a_store_leaving_the_selection_closes_its_stream() {
    let live = vec![opened(3, &source("a"), vec![]), opened(4, &source("b"), vec![])];
    let (kept, closed) = close_missing(live, &vec![source("b")]);
    assert_eq!(closed, [3]);
    assert_eq!(kept.len(), 1);
    assert_eq!(kept[0].wire, 4);

    let mut s = Streams::new();
    assert_eq!(s.step(0, Incoming::Open), Ok(Step::Open));
    s.accepted(0);
    assert_eq!(s.step(0, Incoming::Open), Err(OpenedTwice { stream: 0 }));
    assert_eq!(s.step(0, Incoming::Chunk), Ok(Step::Apply { acknowledge: true }));
    assert_eq!(s.step(0, Incoming::Other), Ok(Step::Apply { acknowledge: false }));
    assert_eq!(s.step(9, Incoming::Chunk), Ok(Step::Ignore));
    assert_eq!(s.step(0, Incoming::Close), Ok(Step::Finish));
    assert_eq!(s.step(0, Incoming::Close), Ok(Step::Ignore));
    assert_eq!(s.step(0, Incoming::Open), Ok(Step::Open), "it can be opened again");
    s.accepted(0);
    s.accepted(7);
    assert_eq!(s.end(), [0, 7]);
    assert_eq!(
        OpenedTwice { stream: 3 }.message("peer"),
        "peer: stream 3 was opened twice without being closed"
    );
}

#[test]
fn the_positions_record_what_the_far_end_holds() {
    let mut live = vec![opened(0, &source("a"), vec![])];
    ship_turn(&mut live[0], &served(3, Some(2)));
    assert!(note_ack(&mut live, &coverage(0, vec![run(0, 2)])));
    assert!(!note_ack(&mut live, &coverage(9, vec![run(0, 2)])));
    let mut held = Positions::new("frames-send");
    assert!(save_position(&mut held, &mut live[0]));
    let at = held.get("a").expect("keyed by identity");
    assert_eq!((at.chunk, at.delivered, at.wl, at.offset), (Some(2), 3, 1_002, 200));
    assert_eq!(at.path, "/d/a.log");
}

#[test]
fn an_unchanged_position_is_not_rewritten() {
    let mut live = vec![opened(0, &source("a"), vec![])];
    ship_turn(&mut live[0], &served(2, Some(1)));
    note_ack(&mut live, &coverage(0, vec![run(0, 1)]));
    let mut held = Positions::new("frames-send");
    assert!(save_position(&mut held, &mut live[0]));
    assert!(!save_position(&mut held, &mut live[0]));
    assert_eq!(held.get("a").unwrap().delivered, 2);
    ship_turn(&mut live[0], &served(1, Some(2)));
    assert!(!save_position(&mut held, &mut live[0]), "the ack is behind what was sent");
    note_ack(&mut live, &coverage(0, vec![run(0, 2)]));
    assert!(save_position(&mut held, &mut live[0]));
    assert_eq!(held.get("a").unwrap().delivered, 3);
}

#[test]
fn nothing_acked_writes_no_position_rather_than_a_false_one() {
    let mut s = opened(0, &source("a"), vec![]);
    ship_turn(&mut s, &served(2, Some(1)));
    let mut held = Positions::new("frames-send");
    assert!(!save_position(&mut held, &mut s));
    assert!(held.at.is_empty(), "no acknowledgement, no position");
}

#[test]
fn a_store_with_no_identity_is_named_not_shipped() {
    let found = vec![
        Matched {
            id: None,
            dir: "/d".into(),
            name: "plain.log".into(),
            handle: "plain".into(),
            records: None,
        },
        Matched {
            id: Some("a".into()),
            dir: "/d".into(),
            name: "a.log".into(),
            handle: "a".into(),
            records: None,
        },
    ];
    let (sources, unidentified) = sort_sources(&found);
    assert_eq!(sources, vec![source("a")]);
    assert_eq!(unidentified, ["/d/plain.log"]);
    let mut out = Sent::default();
    let said = note_unidentified(&mut out, &unidentified);
    assert_eq!(
        said,
        ["timberfs: /d/plain.log carries no identity, so it cannot be replicated (`timberfs identity /d/plain.log --mint`)"]
    );
    assert!(note_unidentified(&mut out, &unidentified).is_empty(), "said once");
    assert_eq!(out.unidentified, ["/d/plain.log"]);
    assert!(out.streams.is_empty());
    assert!(!connects(false, 0));
    assert!(connects(true, 0) && connects(false, 1));
}

#[test]
fn what_was_sent_is_summed() {
    let one = |chunks: u64| StreamSent {
        store: "a".into(),
        path: "p".into(),
        chunks,
        comp_bytes: chunks * 100,
        accepted_at: vec![],
        acked: vec![],
        skipped_already_held: chunks + 1,
    };
    let sent = Sent {
        streams: vec![one(2), one(3)],
        ..Sent::default()
    };
    assert_eq!((sent.chunks(), sent.comp_bytes(), sent.skipped_already_held()), (5, 500, 7));
    let to = SendOpts::to("archive:4319");
    assert_eq!((to.endpoint.as_str(), to.timeout_ms, to.poll_ms), ("archive:4319", 30_000, 1_000));
    assert!(to.sidecars && !to.follow && to.positions.is_none());
}

#[test]
fn sources_are_described() {
    let s = Sources::Select {
        select: "[a=b]".into(),
        look_in: vec!["/x".into()],
    };
    assert_eq!(s.describe(&vec!["/f".into()]), "[a=b] in /f, /x");
    let bare = Sources::Select {
        select: "[a=b]".into(),
        look_in: vec![],
    };
    assert_eq!(
        bare.describe(&vec![]),
        "[a=b] (no forest is configured and no --look-in was given)"
    );
    assert_eq!(Sources::One("/d/a.log".into()).describe(&vec![]), "/d/a.log");
}

#[test]
fn what_is_sent_reads_back_at_the_other_end() {
    assert!(decode_hello(&hello_bytes()).unwrap().is_some());
    let bytes = frame_bytes(3, Frame::Coverage { runs: vec![run(0, 4)] });
    let (f, used) = decode(&bytes).unwrap().unwrap();
    assert_eq!(used, bytes.len());
    assert_eq!(f, coverage(3, vec![run(0, 4)]));
    assert_eq!(incoming(&f.frame), Incoming::Other);
}

#[test]
fn a_client_that_is_not_speaking_this_protocol_is_refused() {
    let err = decode_hello(b"GET / HTTP/1.1\r\n\r\n").unwrap_err();
    assert!(err.message().contains("not a timberfs replication stream"), "{}", err.message());
}

#[test]
fn a_connection_opens_a_stream_per_store_and_closes_it_when_the_store_leaves() {
    let a = Source { id: "a".to_string(), path: "/logs/a".to_string() };
    let b = Source { id: "b".to_string(), path: "/logs/b".to_string() };
    let c = Source { id: "c".to_string(), path: "/logs/c".to_string() };
    let mut sender = Sender::new();
    let all = vec![a.clone(), b.clone(), c.clone()];
    assert!(sender.begin_pass(&all).is_empty());
    assert!(sender.opens("a") && sender.opens("b") && sender.opens("c"));
    sender.accept(&a, vec![Run { start: 0, end: 4 }]);
    sender.refuse(&b, "not here".to_string());
    sender.accept(&c, vec![]);
    assert!(!sender.opens("a") && !sender.opens("b"), "taken, and refused for good");
    let wires: Vec<u32> = sender.live.iter().map(|s| s.wire).collect();
    assert_eq!((wires, sender.live[0].resume), (vec![0, 1], 5));

    assert_eq!(sender.begin_pass(&vec![b.clone(), c.clone()]), [0]);
    assert!(sender.opens("a"), "a store that comes back is asked again");
    assert!(!sender.opens("c"));
    sender.accept(&a, vec![]);
    assert_eq!(sender.live[1].wire, 2, "a number is not used twice");

    let sent = sender.finish();
    assert_eq!(sent.refused.len(), 1);
    assert_eq!(
        (sent.refused[0].path.as_str(), sent.refused[0].reason.as_str()),
        ("/logs/b", "not here")
    );
    let stores: Vec<&str> = sent.streams.iter().map(|s| s.store.as_str()).collect();
    assert_eq!(stores, ["c", "a"]);
}

/// One send that does not follow, of stores that hold so many chunks each, to
/// a far end that takes and acknowledges what it is sent.
fn send_all(stores: &[(&str, u64)]) -> (Sent, u64) {
    let sources: Vec<Source> = stores.iter().map(|(id, _)| source(id)).collect();
    let mut sender = Sender::new();
    let mut passes = 0;
    loop {
        passes += 1;
        assert!(sender.begin_pass(&sources).is_empty());
        for s in &sources {
            if sender.opens(&s.id) {
                sender.accept(s, vec![]);
            }
        }
        let mut shipped = 0;
        for i in 0..sender.live.len() {
            let first = sender.live[i].resume;
            let held = stores.iter().find(|(id, _)| *id == sender.live[i].store).unwrap().1;
            let chunks = (held - first).min(CHUNKS_PER_TURN);
            let last = if chunks > 0 { Some(first + chunks - 1) } else { None };
            shipped += ship_turn(&mut sender.live[i], &served(chunks, last));
            if held > 0 {
                let wire = sender.live[i].wire;
                let upto = sender.live[i].resume - 1;
                assert!(note_ack(&mut sender.live, &coverage(wire, vec![run(0, upto)])));
            }
        }
        if after_pass(false, shipped) == AfterPass::End {
            return (sender.finish(), passes);
        }
    }
}

#[test]
fn a_backlog_larger_than_one_turn_still_ships_completely() {
    let n = CHUNKS_PER_TURN + 7;
    let (sent, passes) = send_all(&[("src", n)]);
    assert_eq!(sent.chunks(), n);
    assert_eq!(sent.streams[0].acked, vec![run(0, n - 1)]);
    assert_eq!(passes, 3, "two turns, and one that moved nothing");
}

#[test]
fn one_connection_carries_a_selection() {
    let (sent, _) = send_all(&[("apache-error", 3), ("apache-access", 2)]);
    assert_eq!(sent.streams.len(), 2, "{sent:?}");
    assert_eq!(sent.chunks(), 5);
    assert_eq!(sent.streams[0].acked, vec![run(0, 2)]);
    assert_eq!(sent.streams[1].acked, vec![run(0, 1)]);
}

#[test]
fn two_hosts_with_the_same_labels_do_not_merge() {
    let none: Vec<String> = vec![];
    let other = "9c3c1f52-0c5e-4f57-9a3e-0a6a4ec6f3b1";
    let one = open_stream(&opts(true), Some(ID), &none, &none).unwrap();
    let two = open_stream(&opts(true), Some(other), &none, &none).unwrap();
    assert_eq!(one, format!("/recv/{ID}/{ID}"));
    assert_eq!(two, format!("/recv/{other}/{other}"));
}

#[test]
fn a_store_received_by_an_older_build_is_still_the_destination() {
    let legacy = vec!["/recv/apache-error.log/apache-error.log".to_string()];
    let none: Vec<String> = vec![];
    assert_eq!(
        open_stream(&opts(true), Some(ID), &legacy, &none).unwrap(),
        legacy[0],
        "no second copy is started"
    );
    let minted = "9c3c1f52-0c5e-4f57-9a3e-0a6a4ec6f3b1";
    let mut bark = Fields::new();
    bark.insert("id", Json::Text(minted.to_string()));
    bark.insert("origin_id", Json::Text(ID.to_string()));
    let Frame::Accepted { registration_id, .. } = accepted_frame(Some(&bark), vec![]) else {
        panic!("not an acceptance");
    };
    assert_eq!(
        Some(registration_id),
        timberfs::frame::uuid_bytes(minted),
        "it keeps the identity it was given"
    );
}
