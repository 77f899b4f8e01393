use std::collections::HashMap;
use timberfs::follow::{
    check_follow, fragment_note, line_head, overlap, rotated_candidates, wait_step, FollowError,
    Followed, LineKey, Look, Overlap, Reading, Resync, ShownTimes, Stat, Waiting,
};

fn there(ino: u64, len: u64) -> Stat {
    Stat::There { dev: 1, ino, len }
}

#[test]
fn rotated_files_are_looked_for_oldest_first() {
    let none: Vec<String> = vec![];
    assert_eq!(
        rotated_candidates("/var/log", "app.log", &none, true, true),
        ["/var/log/app.log.1", "/var/log/app.log.0"]
    );
    assert_eq!(
        rotated_candidates("/var/log", "app.log", &none, false, true),
        ["/var/log/app.log.0"]
    );
    let given = vec!["/elsewhere/x".to_string()];
    assert_eq!(rotated_candidates("/var/log", "app.log", &given, true, true), given);
}

#[test]
fn only_complete_lines_are_handed_out() {
    let mut r = Reading::at(100);
    assert_eq!(r.take(b"one\ntw"), vec![b"one\n".to_vec()]);
    assert_eq!((r.offset, r.settled()), (106, 104));
    assert!(r.take(b"o").is_empty());
    assert_eq!(r.take(b"\n\nrest"), vec![b"two\n".to_vec(), b"\n".to_vec()]);
    assert_eq!(r.finish(), Some(b"rest".to_vec()));
    assert_eq!(r.finish(), None);
    assert_eq!(r.settled(), r.offset);
}

#[test]
fn how_a_file_is_cut_into_reads_changes_nothing() {
    let all = b"a\nbb\n\nccc\nd";
    let mut whole = Reading::at(0);
    let want = whole.take(all);
    for k in 0..all.len() {
        let mut r = Reading::at(0);
        let mut got = r.take(&all[..k]);
        got.extend(r.take(&all[k..]));
        assert_eq!(got, want);
        assert_eq!(r, whole);
    }
}

#[test]
fn a_line_is_searched_for_its_time_at_its_beginning() {
    let long = vec![b'x'; 300];
    assert_eq!(line_head(&long).len(), 256);
    assert_eq!(line_head(b"ab\xff"), "ab\u{fffd}");
    assert_eq!(
        fragment_note(&b"abc".to_vec()),
        "timberfs: committing a final 3 byte(s) that never got their newline (the file was replaced mid-line)"
    );
}

fn shown() -> ShownTimes {
    ShownTimes {
        start: "S".into(),
        first: "F".into(),
        last: "L".into(),
    }
}

#[test]
fn a_file_is_compared_with_what_the_store_holds() {
    let at = |size, start, held| overlap("/log", "app", size, start, held, &shown());
    assert_eq!(at(0, 5, Some((1, 9))), Overlap::Nothing);
    assert_eq!(at(4, 5, None), Overlap::Beyond);
    assert_eq!(at(4, 10, Some((1, 9))), Overlap::Beyond);
    match at(4, 9, Some((1, 9))) {
        Overlap::Within { until, note } => {
            assert_eq!(until, 9);
            assert!(note.contains("overlaps what app already holds (through L)"), "{note}");
        }
        other => panic!("{other:?}"),
    }
    match at(4, 0, Some((1, 9))) {
        Overlap::Skip(s) => assert!(s.contains("it starts S , before the oldest data in app (F)"), "{s}"),
        other => panic!("{other:?}"),
    }
}

#[test]
fn a_restart_adds_what_the_store_does_not_hold() {
    let mut counts = HashMap::new();
    counts.insert(7u64, 2u64);
    counts.insert(8u64, 1u64);
    let mut r = Resync::within(counts, 100);
    let lines = [(7, Some(50)), (7, None), (7, Some(60)), (8, Some(100)), (9, Some(70))];
    let new: Vec<u64> = lines.iter().filter(|(h, t)| r.line(*h, *t)).map(|(h, _)| *h).collect();
    assert_eq!(new, [7, 9], "two of 7 and one of 8 were held");
    assert!(r.line(8, Some(101)), "past the window everything is new");
    assert!(r.line(8, Some(1)), "and it stays behind us");
    assert_eq!(
        r.summary("/log", "app").unwrap(),
        "timberfs: /log: 4 line(s) new, 3 already in app"
    );
    assert_eq!(Resync::beyond().summary("/log", "app"), None);
}

#[test]
fn a_replaced_file_is_drained_before_the_new_one_is_read() {
    let mut f = Followed::new(1, 10, 0);
    let p = f.poll("/log", there(10, 6), b"", b"a\nhalf");
    assert_eq!((p.lines, p.idle), (vec![b"a\n".to_vec()], false));
    let p = f.poll("/log", there(11, 4), b" line\ntail", b"new\nn");
    assert_eq!(
        p.lines,
        vec![b"half line\n".to_vec(), b"tail".to_vec(), b"new\n".to_vec()]
    );
    assert_eq!(p.notes.len(), 2);
    assert!(p.notes[0].contains("a final 4 byte(s)"), "{:?}", p.notes);
    assert_eq!(
        p.notes[1],
        "timberfs: /log was replaced (rotation); drained its last 10 byte(s) and switched to the new file"
    );
    assert_eq!((f.ino, f.reading.offset, f.total), (11, 5, 21));
    assert!(f.summary("/log", 3, 1).ends_with(
        "21 byte(s) this run, 3 entries stamped, 1 inherited (1 byte(s) of an unfinished line left for the next run)"
    ));
}

#[test]
fn a_file_that_shrank_is_read_from_its_start() {
    let mut f = Followed::new(1, 10, 0);
    f.poll("/log", there(10, 6), b"", b"abc\nde");
    let p = f.poll("/log", there(10, 2), b"", b"x\n");
    assert_eq!(p.lines, vec![b"x\n".to_vec()]);
    assert!(p.notes[0].contains("shrank from 6 to 2 bytes"), "{:?}", p.notes);
    assert_eq!(f.reading.offset, 2);
}

#[test]
fn a_missing_file_is_told_once_and_still_read() {
    let mut f = Followed::new(1, 10, 0);
    let p = f.poll("/log", Stat::Missing, b"", b"late\n");
    assert_eq!(p.lines, vec![b"late\n".to_vec()]);
    assert_eq!(p.notes, ["timberfs: /log is gone for now; still reading the file it named"]);
    let p = f.poll("/log", Stat::Missing, b"", b"");
    assert!(p.notes.is_empty() && p.idle);
    assert_eq!(f.look("/log", there(10, 5)), Look::Same);
    assert_eq!(f.look("/log", Stat::Failed), Look::Fail);
}

#[test]
fn a_follower_waits_for_its_file() {
    assert_eq!(wait_step("/log", true, false, false, 5), Waiting::Ready);
    assert_eq!(wait_step("/log", false, true, false, 5), Waiting::Stop);
    assert_eq!(
        wait_step("/log", false, false, false, 5),
        Waiting::Sleep(100, Some("timberfs: /log does not exist yet; waiting for it".into()))
    );
    assert_eq!(wait_step("/log", false, false, true, 500), Waiting::Sleep(500, None));
}

#[test]
fn a_bundle_is_not_followed_into() {
    assert!(check_follow("/d/a.log", false, Some("1d"), None).is_ok());
    let e = check_follow("/d/a.timber", true, None, None).unwrap_err();
    assert!(e.message().contains("follow into a log instead"));
    assert!(matches!(check_follow("/d", false, Some("x"), None), Err(FollowError::Measure(_))));
}

fn key(hash: u64, at: u64) -> LineKey {
    LineKey { hash, at: Some(at) }
}

#[test]
fn only_the_new_lines_of_a_file_are_handed_on() {
    let keys = vec![key(1, 10), key(2, 20), key(1, 30), key(3, 200)];
    let held = || HashMap::from([(1, 1), (3, 1)]);
    let mut r = Resync::within(held(), 100);
    assert_eq!(r.decide(&keys), [false, true, true, true]);
    assert_eq!(
        r.summary("/log", "app").unwrap(),
        "timberfs: /log: 3 line(s) new, 1 already in app"
    );
    assert_eq!(Resync::beyond().decide(&keys), [true; 4]);

    let mut pieces = Resync::within(held(), 100);
    let mut got = pieces.decide(&keys[..2].to_vec());
    got.extend(pieces.decide(&keys[2..].to_vec()));
    assert_eq!(got, [false, true, true, true], "however they come");
}

/// A store that files are brought level with: a line is known by its length.
struct Level {
    lines: Vec<Vec<u8>>,
}

impl Level {
    fn catch_up(&mut self, content: &[u8], live: bool) -> usize {
        let held = if self.lines.is_empty() { None } else { Some((10, 10)) };
        let times = ShownTimes {
            start: String::new(),
            first: String::new(),
            last: String::new(),
        };
        let step = overlap("/log", "app", content.len() as u64, 10, held, &times);
        let mut counts: HashMap<u64, u64> = HashMap::new();
        for l in &self.lines {
            *counts.entry(l.len() as u64).or_default() += 1;
        }
        let Some(mut resync) = Resync::begin(&step, counts) else {
            return 0;
        };
        let mut reading = Reading::at(0);
        let mut lines = reading.take(content);
        lines.extend(reading.rest(live));
        let keys: Vec<LineKey> = lines.iter().map(|l| key(l.len() as u64, 10)).collect();
        let new = resync.decide(&keys);
        let before = self.lines.len();
        self.lines.extend(lines.into_iter().zip(new).filter(|(_, n)| *n).map(|(l, _)| l));
        self.lines.len() - before
    }
}

#[test]
fn reading_a_file_again_adds_nothing() {
    for content in [&b"a\nbb\na\n"[..], b"a\nbb\na\ntail", b"tail"] {
        let mut store = Level { lines: vec![] };
        let added = store.catch_up(content, false);
        assert_eq!(store.lines.concat(), content);
        assert!(added > 0);
        assert_eq!(store.catch_up(content, false), 0, "{content:?}");
        assert_eq!(store.lines.concat(), content);
    }
    let mut store = Level { lines: vec![] };
    store.catch_up(b"a\ntai", true);
    assert_eq!(store.lines.concat(), b"a\n", "a line still being written is left");
    store.catch_up(b"a\ntail\n", true);
    assert_eq!(store.lines.concat(), b"a\ntail\n");
}
