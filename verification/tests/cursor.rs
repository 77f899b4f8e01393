use timberfs::cursor::{
    consumed_prefix, consumers_in, standing, standing_at, store_anchor, survey, Cursor, CursorError,
    Found, Resume,
};
use timberfs::format::ChunkRecord;
use timberfs::json::{Fields, Json};

/// A cursor standing in chunk `seq`, `n` entries into it.
fn cur(seq: u64, n: u64) -> Cursor {
    Cursor {
        consumer: "test".into(),
        store: "id".into(),
        path: "p".into(),
        seq: Some(seq),
        n,
        wl: 100 + seq,
        delivered: n.max(1),
    }
}

fn chunk(seq: u64, comp_start: u64, comp_len: u64, first: u64, last: u64) -> ChunkRecord {
    ChunkRecord {
        uncomp_start: 0,
        uncomp_len: 0,
        comp_start,
        comp_len,
        first_write_ms: first,
        last_write_ms: last,
        seq,
    }
}

/// Three 10-byte chunks numbered 0..2, covering 100..400.
fn three() -> Vec<ChunkRecord> {
    vec![
        chunk(0, 0, 10, 100, 200),
        chunk(1, 10, 10, 200, 300),
        chunk(2, 20, 10, 300, 400),
    ]
}

#[test]
fn consumed_prefix_holds_the_chunk_the_cursor_sits_in() {
    assert_eq!(consumed_prefix(&three(), Some(1)), 1);
    assert_eq!(consumed_prefix(&three(), Some(0)), 0);
    assert_eq!(consumed_prefix(&three(), Some(3)), 3);
    assert_eq!(consumed_prefix(&three(), None), 0);
}

#[test]
fn consumed_prefix_counts_numbers_not_positions() {
    let dropped = vec![
        chunk(2, 0, 10, 300, 400),
        chunk(3, 10, 10, 400, 500),
        chunk(4, 20, 10, 500, 600),
    ];
    assert_eq!(consumed_prefix(&dropped, Some(3)), 1);
    assert_eq!(consumed_prefix(&dropped, Some(2)), 0);
    assert_eq!(consumed_prefix(&dropped, Some(1)), 0);
}

#[test]
fn resume_never_delivers_from_a_consumed_chunk() {
    let records = three();
    for seq in 0..=3 {
        let c = cur(seq, 1);
        let k = consumed_prefix(&records, Some(seq));
        for r in &records[..k] {
            let mut resume = Resume::new(Some(&c));
            assert!(
                !resume.deliver(Some(r.seq)),
                "cursor at {seq} would still be delivered chunk {}",
                r.seq
            );
        }
    }
}

#[test]
fn a_live_edge_entry_is_delivered_but_moves_nothing() {
    let mut c = cur(2, 3);
    let before = (c.seq, c.n);
    c.advance(None, 999);
    assert_eq!((c.seq, c.n), before, "no chunk to stand in, so no move");
    assert_eq!(c.delivered, 4, "still counted as delivered");
    assert_eq!(c.wl, 999, "and the informational time follows it");
    let mut resume = Resume::new(Some(&c));
    assert!(resume.deliver(None));
}

#[test]
fn standing_reports_the_backlog_it_is_holding() {
    let records = three();
    let st = standing(&cur(1, 2), &records);
    assert_eq!(st.consumed_chunks, 1);
    assert_eq!(st.behind_chunks, 2);
    assert_eq!(st.behind_bytes, 20);
    assert_eq!(st.gap_chunks, None);
    assert!(!st.caught_up());

    let done = standing(&cur(3, 1), &records);
    assert!(done.caught_up());
    assert_eq!(done.behind_bytes, 0);
    assert_eq!(done.lag_text(""), "caught up");
}

#[test]
fn a_gap_is_counted_in_chunks_not_inferred_from_time() {
    let records = vec![chunk(2, 0, 10, 300, 400), chunk(3, 10, 10, 400, 500)];
    let st = standing(&cur(0, 1), &records);
    assert_eq!(st.gap_chunks, Some(2));
    assert_eq!(st.lag_text(""), "GAP");
    let fresh = Cursor::new("c", "id", "p");
    assert_eq!(standing(&fresh, &records).gap_chunks, None);
}

#[test]
fn a_distance_is_told_where_nothing_is_lost() {
    let st = standing_at(Some(0), 100, &three());
    assert_eq!(st.behind_ms, 300);
    assert_eq!(st.lag_text("300 ms"), "300 ms behind");
    let edge = standing_at(Some(2), 400, &three());
    assert!(edge.at_live_edge());
    assert_eq!(edge.lag_text("0 ms"), "at the live edge");
}

#[test]
fn resolving_an_old_cursor_lands_on_a_chunk_and_resets_n() {
    let records = three();
    let mut c = Cursor::new("c", "id", "p");
    c.wl = 250;
    c.n = 7;
    c.delivered = 7;
    assert_eq!(c.resolve(&records), Some(1));
    assert_eq!(c.seq, Some(1));
    assert_eq!(c.n, 0);
    assert_eq!(c.resolve(&records), Some(1));
}

#[test]
fn only_a_cursor_that_delivered_something_is_pre_numbering() {
    let records = three();
    let mut fresh = cur(0, 0);
    fresh.seq = None;
    fresh.delivered = 0;
    assert_eq!(
        fresh.resolve_if_pre_numbering(&records),
        None,
        "a new cursor has no position to convert"
    );
    assert_eq!(fresh.seq, None, "...and must be left alone for --start");

    let mut old = cur(0, 0);
    old.seq = None;
    old.wl = 250;
    old.delivered = 9;
    assert_eq!(old.resolve_if_pre_numbering(&records), Some(Ok(1)));

    let mut numbered = cur(2, 5);
    assert_eq!(numbered.resolve_if_pre_numbering(&records), None);
    assert_eq!((numbered.seq, numbered.n), (Some(2), 5));

    let mut nothing_to_resolve = cur(0, 0);
    nothing_to_resolve.seq = None;
    nothing_to_resolve.delivered = 9;
    assert_eq!(
        nothing_to_resolve.resolve_if_pre_numbering(&[]),
        Some(Err(()))
    );
}

#[test]
fn resolving_clamps_to_the_ends_of_the_store() {
    let records = three();
    let mut old = Cursor::new("c", "id", "p");
    old.wl = 1;
    old.delivered = 5;
    assert_eq!(old.resolve(&records), Some(0));
    let mut ahead = Cursor::new("c", "id", "p");
    ahead.wl = 9_999;
    ahead.delivered = 5;
    assert_eq!(ahead.resolve(&records), Some(3));
    let mut empty = Cursor::new("c", "id", "p");
    empty.wl = 500;
    assert_eq!(empty.resolve(&[]), None);
    assert_eq!(empty.seq, None);
}

fn found(name: &str, store: &str, seq: u64) -> Found {
    let mut c = cur(seq, 1);
    c.consumer = name.to_string();
    c.store = store.to_string();
    Found {
        path: format!("/cursors/{name}.cursor"),
        stem: name.to_string(),
        outcome: Ok(Some(c)),
    }
}

#[test]
fn consumers_in_matches_by_store_identity() {
    let files = vec![
        found("otlp", "id-a", 2),
        found("splitter", "id-a", 1),
        found("elsewhere", "id-b", 2),
        Found {
            path: "/cursors/notes.txt".into(),
            stem: "notes".into(),
            outcome: Cursor::load("hello", "/cursors/notes.txt").map(Some),
        },
    ];
    let sv = consumers_in("/cursors", files, "id-a", &[]);
    let names: Vec<&str> = sv.consumers.iter().map(|c| c.name.as_str()).collect();
    assert_eq!(names, ["otlp", "splitter"]);
    assert_eq!(sv.unreadable, 1);
}

#[test]
fn survey_needs_a_declaration_and_ranks_the_worst_first() {
    let records = three();
    let files = || vec![found("ahead", "id-a", 3), found("behind", "id-a", 0)];
    let mut bark = Fields::new();
    bark.insert("id", Json::Text("id-a".into()));
    assert!(survey(Some(&bark), files(), "/store", "x.log", &records).is_none());

    bark.insert("cursors", Json::Text("/cursors".into()));
    let sv = survey(Some(&bark), files(), "/store", "x.log", &records).unwrap();
    assert_eq!(sv.dir, "/cursors");
    assert_eq!(sv.consumers.len(), 2);
    assert_eq!(sv.worst().unwrap().name, "behind");
    assert_eq!(sv.held_bytes(), 30);
    assert_eq!(sv.gapped().len(), 0);
}

#[test]
fn a_declared_directory_that_is_gone_reads_as_empty_not_absent() {
    let mut bark = Fields::new();
    bark.insert("cursors", Json::Text("/nonexistent/timberfs-cursors".into()));
    let sv = survey(Some(&bark), Vec::new(), "/store", "x.log", &three()).unwrap();
    assert!(sv.consumers.is_empty());
}

#[test]
fn store_anchor_prefers_declared_identity_over_the_path() {
    let mut bark = Fields::new();
    bark.insert("id", Json::Text("abc".into()));
    assert_eq!(store_anchor("/x", "a.log", Some(&bark)), "abc");
    let anchor = store_anchor("/x", "a.log", None);
    assert!(anchor.starts_with("path:"), "{anchor}");
    assert!(anchor.ends_with("/x/a.log"), "{anchor}");
}

#[test]
fn no_cursor_delivers_everything() {
    let mut r = Resume::new(None);
    assert!(r.deliver(Some(0)));
    assert!(r.deliver(Some(0)));
    assert_eq!(r.skipped(), 0);
    let fresh = Cursor::new("c", "id", "p");
    let mut r = Resume::new(Some(&fresh));
    assert!(r.deliver(Some(0)));
}

#[test]
fn skips_the_delivered_prefix_of_the_boundary_chunk() {
    let c = cur(2, 2);
    let mut r = Resume::new(Some(&c));
    assert!(!r.deliver(Some(2)));
    assert!(!r.deliver(Some(2)));
    assert!(r.deliver(Some(2)));
    assert!(r.deliver(Some(2)));
    assert_eq!(r.skipped(), 2);
}

#[test]
fn skips_whole_chunks_before_the_cursor() {
    let c = cur(2, 1);
    let mut r = Resume::new(Some(&c));
    assert!(!r.deliver(Some(0)));
    assert!(!r.deliver(Some(1)));
    assert!(!r.deliver(Some(2)));
    assert!(r.deliver(Some(2)));
    assert_eq!(r.skipped(), 3);
}

#[test]
fn a_later_chunk_ends_the_skipping_for_good() {
    let c = cur(2, 5);
    let mut r = Resume::new(Some(&c));
    assert!(!r.deliver(Some(2)));
    assert!(r.deliver(Some(3)));
    assert!(r.deliver(Some(2)));
    assert_eq!(r.skipped(), 1);
}

#[test]
fn advance_restarts_n_on_a_new_chunk() {
    let mut c = Cursor::new("c", "id", "p");
    c.advance(Some(10), 500);
    c.advance(Some(10), 501);
    assert_eq!((c.seq, c.n, c.delivered), (Some(10), 2, 2));
    c.advance(Some(11), 502);
    assert_eq!((c.seq, c.n, c.delivered), (Some(11), 1, 3));
}

#[test]
fn roundtrip_through_a_file() {
    let c = cur(10, 3);
    let text = c.to_fields("2026-08-21T00:00:00Z").compact();
    let back = Cursor::load(&text, "app.cursor").unwrap();
    assert_eq!(back, c);
    assert!(back.check_store("id", "app.cursor").is_ok());
    let refused = back.check_store("other", "app.cursor").unwrap_err();
    assert!(refused.message().contains("app.cursor"), "{}", refused.message());
    let back = Cursor::load(
        "{\"consumer\":\"c\",\"store\":\"id\",\"wf\":1,\"wl\":250,\"n\":4,\"delivered\":9}",
        "old.cursor",
    )
    .unwrap();
    assert_eq!(
        (back.seq, back.wl, back.n, back.delivered),
        (None, 250, 4, 9)
    );
}

#[test]
fn a_missing_cursor_is_none_but_garbage_is_an_error() {
    assert!(Cursor::load("not json", "bad.cursor").is_err());
    assert!(Cursor::load("{\"wl\": 5}", "nostore.cursor").is_err());
    let e: CursorError = Cursor::load("[]", "bad.cursor").unwrap_err();
    assert!(e.message().contains("bad.cursor"), "{}", e.message());
}
