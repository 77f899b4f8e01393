use timberfs::append::{
    check_append, check_policy, index_due, mounted_message, parse_duration_ms, parse_size_bytes,
    retention_note, writer_conflict, AppendError, AppendRun, InputAction, InputEvent, LivePolicy,
    MeasureError, Stamp,
};
use timberfs::bark::Retention;
use timberfs::interest::RotateStats;

#[test]
fn durations_have_units_and_fractions() {
    assert_eq!(parse_duration_ms("30d"), Ok(2_592_000_000));
    assert_eq!(parse_duration_ms(" 12H "), Ok(43_200_000));
    assert_eq!(parse_duration_ms("45m"), Ok(2_700_000));
    assert_eq!(parse_duration_ms("90s"), Ok(90_000));
    assert_eq!(parse_duration_ms("2w"), Ok(1_209_600_000));
    assert_eq!(parse_duration_ms("5"), Ok(5_000));
    assert_eq!(parse_duration_ms("1.5h"), Ok(5_400_000));
    assert_eq!(parse_duration_ms("1e3s"), Ok(1_000_000));
    assert_eq!(parse_duration_ms("0.1s"), Ok(100));
    assert_eq!(parse_duration_ms("0.0009s"), Ok(0));
    assert_eq!(parse_duration_ms("1e300s"), Ok(u64::MAX));
    assert_eq!(
        parse_duration_ms("soon"),
        Err(MeasureError::UnrecognizedDuration("soon".into()))
    );
    assert_eq!(
        parse_duration_ms("-1s"),
        Err(MeasureError::DurationOutOfRange("-1s".into()))
    );
    assert_eq!(
        parse_duration_ms("inf"),
        Err(MeasureError::DurationOutOfRange("inf".into()))
    );
    assert_eq!(
        parse_duration_ms("soon").unwrap_err().message(),
        "unrecognized duration \"soon\" (try 30d, 12h, 45m, 90s)"
    );
}

#[test]
fn sizes_are_powers_of_1024() {
    assert_eq!(parse_size_bytes("200G"), Ok(200 << 30));
    assert_eq!(parse_size_bytes("512MiB"), Ok(512 << 20));
    assert_eq!(parse_size_bytes("1t"), Ok(1 << 40));
    assert_eq!(parse_size_bytes("64KB"), Ok(64 << 10));
    assert_eq!(parse_size_bytes("1.5K"), Ok(1536));
    assert_eq!(parse_size_bytes("7"), Ok(7));
    assert_eq!(
        parse_size_bytes("lots"),
        Err(MeasureError::UnrecognizedSize("lots".into()))
    );
    assert_eq!(
        parse_size_bytes("-1K"),
        Err(MeasureError::SizeOutOfRange("-1K".into()))
    );
}

#[test]
fn a_measure_agrees_with_the_machine() {
    for text in ["0.1", "0.3", "1.1", "2.675", "9007199254740993", "1e-7", "123456789.987654321", "4.35"] {
        let v: f64 = text.parse().unwrap();
        assert_eq!(parse_duration_ms(text), Ok((v * 1000.0) as u64), "{text}");
        assert_eq!(
            parse_duration_ms(&format!("{text}d")),
            Ok((v * 86_400_000.0) as u64),
            "{text}d"
        );
        assert_eq!(
            parse_size_bytes(&format!("{text}T")),
            Ok((v * (1u64 << 40) as f64) as u64),
            "{text}T"
        );
    }
}

#[test]
fn a_manifest_that_stops_parsing_keeps_the_last_good_policy() {
    let mut p = LivePolicy::new("app.log");
    let good = Retention {
        max_age_ms: Some(5),
        max_comp_bytes: None,
        unconsumed: false,
    };
    let at = |n: u64| Some(Stamp { modified: Some(n), len: 10 });
    assert_eq!(p.refresh(at(1), &Ok(good)), (good, None));
    assert!(!p.stale(at(1)));
    let (kept, note) = p.refresh(at(2), &Err("bad json".into()));
    assert_eq!(kept, good);
    assert_eq!(
        note.as_deref(),
        Some("timberfs: app.log: manifest unreadable (bad json); keeping the previous retention policy (fix it with `timberfs set`)")
    );
    let (kept, note) = p.refresh(at(3), &Err("still bad".into()));
    assert_eq!((kept, note), (good, None), "said once");
    let none = Retention::default();
    assert_eq!(p.refresh(at(4), &Ok(none)), (none, None));
    assert!(p.refresh(at(5), &Err("bad".into())).1.is_some(), "said again");
}

#[test]
fn the_append_loop_counts_and_ends() {
    let mut run = AppendRun::new();
    assert_eq!(run.step(InputEvent::Read(7)), InputAction::Append(7));
    assert_eq!(run.step(InputEvent::Interrupted), InputAction::Again);
    assert_eq!(run.step(InputEvent::Failed), InputAction::Abort);
    assert_eq!(run.step(InputEvent::Read(3)), InputAction::Append(3));
    assert_eq!(run.step(InputEvent::Read(0)), InputAction::Finish);
    assert_eq!(run.summary("app.log"), "timberfs: appended 10 bytes to app.log (end of input)");
    assert_eq!(run.step(InputEvent::Stop), InputAction::Finish);
    assert_eq!(
        run.summary("app.log"),
        "timberfs: appended 10 bytes to app.log (stopped by signal, flushed)"
    );
}

#[test]
fn what_cannot_be_appended_is_said() {
    assert!(check_append("a.log", false, Some("30d"), Some("1G")).is_ok());
    assert!(matches!(
        check_append("a.timber", true, None, None),
        Err(AppendError::Bundle(_))
    ));
    assert!(matches!(
        check_append("a.timber", true, Some("x"), None),
        Err(AppendError::Measure(MeasureError::UnrecognizedDuration(_)))
    ));
    assert!(matches!(
        check_policy(None, Some("x")),
        Err(MeasureError::UnrecognizedSize(_))
    ));
    let said = check_append("a.timber", true, None, None).unwrap_err().message();
    assert!(said.starts_with("a.timber is a .timber transfer bundle"), "{said}");
}

#[test]
fn a_conflict_names_who_holds_the_lock_and_that_we_waited() {
    assert_eq!(
        writer_conflict("a.log", Some("appender pid=4"), 2_500),
        "a.log already has a writer: appender pid=4 — still held after waiting 2.5s; one writer per log, so that one must exit before this one can take over"
    );
    assert_eq!(
        writer_conflict("a.log", None, 0),
        "a.log already has a writer (another timberfs writer or a rotation)"
    );
    for (ms, shown) in [(3_000, "3"), (1_250, "1.25"), (42, "0.042"), (10_100, "10.1")] {
        assert_eq!(
            writer_conflict("a.log", None, ms),
            format!("a.log already has a writer (another timberfs writer or a rotation) — still held after waiting {shown}s")
        );
    }
    assert_eq!(
        mounted_message("/d", Some("/mnt")),
        "backing directory /d is served by a timberfs mount (mounted on /mnt); write through the mount instead, or unmount first"
    );
}

#[test]
fn retention_tells_what_it_dropped() {
    let stats = RotateStats {
        chunks_moved: 3,
        uncomp_bytes: 0,
        comp_bytes: 99,
        first_write_ms: 0,
        last_write_ms: 0,
        chunks_remaining: 1,
        first_seq: 0,
        last_seq: 2,
    };
    assert_eq!(
        retention_note("a.log", &stats, "then", "later"),
        "timberfs: a.log: retention dropped 3 chunk(s), 99 compressed bytes, written then .. later"
    );
    assert!(index_due(3, 2, true));
    assert!(!index_due(3, 3, true));
    assert!(!index_due(3, 2, false));
}

#[test]
fn whole_sizes_and_durations_are_exact_in_every_spelling() {
    for (letter, unit) in [("", 1u64), ("K", 1 << 10), ("M", 1 << 20), ("G", 1 << 30), ("T", 1 << 40)] {
        for n in [0u64, 1, 7, 50, 8_191, 8_192, 8_388_607] {
            for end in ["", "B", "iB"] {
                let text = format!("{n}{letter}{end}");
                assert_eq!(parse_size_bytes(&text), Ok(n * unit), "{text}");
                assert_eq!(parse_size_bytes(&text.to_lowercase()), Ok(n * unit), "{text}");
            }
        }
    }
    assert_eq!(parse_size_bytes("50G"), Ok(53_687_091_200));
    assert_eq!(parse_size_bytes("16777216T"), Ok(u64::MAX), "no more than there is room for");
    for (unit, ms) in [("w", 604_800_000), ("D", 86_400_000), ("h", 3_600_000), ("M", 60_000), ("", 1_000)] {
        assert_eq!(parse_duration_ms(&format!("14000{unit}")), Ok(14_000 * ms));
    }
}
