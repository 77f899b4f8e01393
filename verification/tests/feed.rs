use timberfs::consumer::{Diet, Report, ReportError};
use timberfs::feed::{
    after_poll, await_hello, consumer_name, drained, following_note, run_outcome, seed,
    stream_start, AfterPoll, AnswerRecord, Drain, Exit, Feed, FeedError, Heard, RecordKind, Taken,
};
use timberfs::follower::Positions;
use timberfs::json::{Fields, Json};

fn labels(service: &str) -> Fields {
    let mut f = Fields::new();
    f.insert("service", Json::Text(service.into()));
    f
}

fn entry(id: &str, offset: u64, len: u64, chunk: u64) -> AnswerRecord {
    AnswerRecord {
        kind: RecordKind::Entry,
        id: Some(id.into()),
        offset: Some(offset),
        len: Some(len),
        chunk: Some(chunk),
        wl: Some(1_000 + chunk),
        limited: false,
        bytes: format!("<{id}@{offset}>").into_bytes(),
    }
}

fn stream_end(limited: bool) -> AnswerRecord {
    AnswerRecord {
        kind: RecordKind::StreamEnd,
        id: None,
        offset: None,
        len: None,
        chunk: None,
        wl: None,
        limited,
        bytes: b"end".to_vec(),
    }
}

#[test]
fn a_shell_consumer_receives_the_selection_and_its_acks_move_the_positions() {
    let mut feed = Feed::new();
    feed.announce("w1", "/d/w1.log", &labels("apache")).unwrap();
    let (out, more) =
        feed.splice(&vec![entry("w1", 0, 10, 0), entry("w1", 10, 10, 1), stream_end(true)]);
    assert_eq!(out, b"<w1@0><w1@10>", "brackets stay behind");
    assert_eq!(more, Ok(true));
    let mut held = Positions::new("bash");
    match feed.take_report(Report::Progress { id: "w1".into(), offset: 20 }).unwrap() {
        Taken::Moved(a) => {
            assert_eq!((a.offset, a.chunk, a.wl, a.delivered), (20, Some(1), 1_001, 2));
            held.advance(&a.id, &a.path, a.offset, a.chunk, a.wl, a.delivered);
        }
        other => panic!("{other:?}"),
    }
    let at = held.get("w1").unwrap();
    assert_eq!(at.chunk, Some(at.delivered - 1));
    match feed.take_report(Report::Progress { id: "w1".into(), offset: 20 }).unwrap() {
        Taken::Moved(a) => assert_eq!((a.delivered, a.chunk), (0, None), "nothing twice"),
        other => panic!("{other:?}"),
    }
}

#[test]
fn a_position_file_says_what_wrote_it_and_when_it_got_there() {
    assert_eq!(consumer_name("/usr/bin/bash"), "bash");
    assert_eq!(consumer_name("bash"), "bash");
    assert_eq!(consumer_name("/"), "/");
}

/// One run of a feed that does not follow: what the consumer is handed, and
/// the positions that its reports move.
fn run_once(held: &mut Positions, reports: Vec<Report>) -> Vec<u8> {
    let mut feed = Feed::new();
    assert!(feed.announce("w1", "/d/w1.log", &labels("apache")).is_some());
    let from = held.get("w1").map_or(0, |p| p.offset);
    let all = vec![entry("w1", 0, 10, 0), entry("w1", 10, 5, 1)];
    let new = all.into_iter().filter(|e| e.offset.unwrap() >= from).collect();
    let (out, more) = feed.splice(&new);
    assert_eq!(more, Ok(false));
    for r in reports {
        if let Taken::Moved(a) = feed.take_report(r).unwrap() {
            held.advance(&a.id, &a.path, a.offset, a.chunk, a.wl, a.delivered);
        }
    }
    out
}

#[test]
fn a_consumer_that_never_reports_never_advances() {
    let mut held = Positions::new("bash");
    let busy = || vec![Report::Note { id: None, offset: None, text: "busy".into() }];
    assert_eq!(run_once(&mut held, busy()), b"<w1@0><w1@10>", "it was still fed");
    assert!(held.at.is_empty(), "nothing was acknowledged, so nothing moved");
    assert_eq!(run_once(&mut held, vec![]), b"<w1@0><w1@10>", "so the same entries come again");
    assert!(held.at.is_empty());

    let part = vec![Report::Progress { id: "w1".into(), offset: 14 }];
    run_once(&mut held, part);
    let at = held.get("w1").unwrap();
    assert_eq!((at.offset, at.delivered), (14, 1), "the second entry still waits");
}

#[test]
fn a_consumer_that_says_no_hello_is_refused() {
    let err = await_hello(Heard::Timeout, 500).unwrap_err();
    assert_eq!(err, FeedError::NoHello(0));
    assert!(err.message().contains("hello"), "{}", err.message());
    let early = Report::Progress { id: "a".into(), offset: 1 };
    assert_eq!(await_hello(Heard::Report(early), 1), Err(FeedError::EarlyReport));
    let chunks = Report::Hello { reads: Diet::Chunks, holds: vec![] };
    assert_eq!(await_hello(Heard::Report(chunks), 1), Err(FeedError::ReadsChunks));
    assert_eq!(await_hello(Heard::Closed, 1), Err(FeedError::ClosedBeforeHello));
    assert_eq!(
        await_hello(Heard::Broken(ReportError::Truncated), 1),
        Err(FeedError::Report(ReportError::Truncated))
    );
    let hello = Report::Hello { reads: Diet::Records, holds: vec![("a".into(), 5)] };
    assert_eq!(await_hello(Heard::Report(hello), 1), Ok(vec![("a".to_string(), 5)]));
}

#[test]
fn a_note_is_recorded_even_though_nothing_moved() {
    let mut feed = Feed::new();
    let note = Report::Note {
        id: Some("w1".into()),
        offset: Some(7),
        text: "collector unreachable".into(),
    };
    match feed.take_report(note).unwrap() {
        Taken::Noted { said, id, offset, text } => {
            assert_eq!(said, "timberfs: consumer note [w1] @7: collector unreachable");
            assert_eq!((id.as_deref(), offset), (Some("w1"), Some(7)));
            assert_eq!(text, "collector unreachable");
        }
        other => panic!("{other:?}"),
    }
}

#[test]
fn a_consumer_that_dies_is_reported_with_its_status() {
    let err = run_outcome(Exit::Failed("exit status: 3".into()), Err(FeedError::Closed)).unwrap_err();
    assert_eq!(
        err.message(),
        "the consumer exited exit status: 3 (the consumer closed its output)"
    );
    let err = run_outcome(Exit::Failed("exit status: 3".into()), Ok(())).unwrap_err();
    assert_eq!(err.message(), "the consumer exited exit status: 3");
    assert_eq!(run_outcome(Exit::Killed, Ok(())), Err(FeedError::Killed(5)));
    assert!(run_outcome(Exit::Success, Ok(())).is_ok());
    assert_eq!(run_outcome(Exit::Success, Err(FeedError::Closed)), Err(FeedError::Closed));
}

#[test]
fn a_claim_seeds_an_unread_store_and_yields_to_a_recorded_position() {
    let mut held = Positions::new("bash");
    let said = seed(&mut held, "w1", 100_000);
    assert!(said.contains("already holds it through offset 100000"), "{said}");
    assert_eq!(held.get("w1").unwrap().offset, 100_000);
    let said = seed(&mut held, "w1", 0);
    assert!(said.contains("a recorded position outranks a claim"), "{said}");
    assert_eq!(
        held.get("w1").unwrap().offset,
        100_000,
        "a claim does not rewind a recorded position"
    );
}

#[test]
fn labels_are_announced_when_they_are_new() {
    let mut feed = Feed::new();
    let first = feed.announce("w1", "/d/w1.log", &labels("apache")).unwrap();
    assert_eq!(
        first,
        b"\x1esource\x1fpath=/d/w1.log\x1fid=w1\x1flabels={\"service\":\"apache\"}\0".to_vec()
    );
    assert!(feed.announce("w1", "/d/w1.log", &labels("apache")).is_none());
    assert!(feed.announce("w1", "/d/w1.log", &labels("nginx")).is_some());
    assert_eq!(
        stream_start("9.9"),
        b"\x1estream-start\x1fv=1\x1fserver_version=9.9\x1ffollow=1\x1forder=arrival\0".to_vec()
    );
}

#[test]
fn an_answer_that_cannot_be_acknowledged_is_refused() {
    let mut feed = Feed::new();
    let mut bare = entry("w1", 0, 1, 0);
    bare.id = None;
    let (out, sent) = feed.splice(&vec![entry("w1", 0, 1, 0), bare, entry("w1", 1, 1, 0)]);
    assert_eq!((out, sent), (b"<w1@0>".to_vec(), Err(FeedError::Unattributed)));
    let mut endless = entry("w1", 0, 1, 0);
    endless.len = None;
    assert_eq!(feed.splice(&vec![endless]), (vec![], Err(FeedError::NoOffset)));
    let (out, more) = feed.splice(&vec![entry("unknown", 0, 1, 0), stream_end(false)]);
    assert_eq!((out, more), (b"<unknown@0>".to_vec(), Ok(false)));
    match feed.take_report(Report::Progress { id: "unknown".into(), offset: 1 }).unwrap() {
        Taken::Ignored(s) => assert!(s.contains("never sent anything from"), "{s}"),
        other => panic!("{other:?}"),
    }
    let hello = Report::Hello { reads: Diet::Records, holds: vec![] };
    assert_eq!(feed.take_report(hello), Err(FeedError::HelloTwice));
}

#[test]
fn the_feeding_loop_goes_on_while_there_is_more() {
    assert_eq!(after_poll(true, false), AfterPoll::Again);
    assert_eq!(after_poll(false, true), AfterPoll::Sleep);
    assert_eq!(after_poll(false, false), AfterPoll::End);
    assert_eq!(drained(Drain::Now), Err(FeedError::Closed));
    assert!(drained(Drain::ToEnd).is_ok());
    assert_eq!(following_note(None, 2).as_deref(), Some("timberfs: following 2 store(s)"));
    assert_eq!(following_note(Some(2), 2), None);
    assert!(following_note(Some(2), 3).is_some());
    assert!(FeedError::NoConsumer.message().contains("--"));
    assert_eq!(FeedError::Other("x".into()).message(), "x");
}
