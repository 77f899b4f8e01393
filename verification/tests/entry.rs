use timberfs::entry::{probe_heads, probe_stamps, EntrySink, Framing, Window};

fn records_sink() -> EntrySink {
    sink(None, None)
}

fn sink(window: Option<(u64, u64)>, max: Option<u64>) -> EntrySink {
    EntrySink::new(
        window,
        Framing {
            null_sep: false,
            records: true,
            show_write: false,
            label: None,
        },
        max,
        "test",
    )
}

fn win(first_ms: u64, last_ms: u64) -> Window {
    Window {
        first_ms,
        last_ms,
        shown: String::new(),
    }
}

/// The stamps that lines starting with an RFC 3339 time carry.
fn stamps(heads: &[Vec<u8>]) -> Vec<Option<u64>> {
    heads
        .iter()
        .map(|h| {
            let text = String::from_utf8_lossy(h).into_owned();
            let word = text.split(' ').next().unwrap_or("").to_string();
            chrono::DateTime::parse_from_rfc3339(&word)
                .ok()
                .map(|t| t.timestamp_millis() as u64)
        })
        .collect()
}

fn push(s: &mut EntrySink, data: &[u8], chunk: Option<u64>, w: (u64, u64), n: &mut u64, out: &mut Vec<u8>) {
    let found = stamps(&s.heads(data));
    s.push_chunk(data, &found, chunk, win(w.0, w.1), n, out);
}

fn finish(s: &mut EntrySink, n: &mut u64, out: &mut Vec<u8>) {
    let last: Vec<Vec<u8>> = s.last_head().into_iter().collect();
    let stamp = stamps(&last).first().copied().flatten();
    s.finish(stamp, n, out);
}

/// Field heads only, one per emitted entry record.
fn heads(buf: &[u8]) -> Vec<String> {
    buf.split(|&b| b == 0x1e)
        .filter(|r| r.starts_with(b"entry"))
        .map(|r| {
            let head = r.split(|&b| b == 0).next().unwrap_or_default();
            String::from_utf8_lossy(head).replace('\x1f', " ")
        })
        .collect()
}

#[test]
fn an_entry_from_a_chunk_carries_its_number() {
    let mut sink = records_sink();
    let mut out = Vec::new();
    let mut n = 0;
    push(
        &mut sink,
        b"2026-08-21T10:00:00Z first\n2026-08-21T10:00:01Z second\n",
        Some(41),
        (100, 200),
        &mut n,
        &mut out,
    );
    finish(&mut sink, &mut n, &mut out);
    let h = heads(&out);
    assert_eq!(h.len(), 2, "{h:?}");
    assert!(h[0].contains("chunk=41"), "{}", h[0]);
    assert!(h[1].contains("chunk=41"), "{}", h[1]);
    assert_eq!(sink.emitted, 2);
}

#[test]
fn a_live_edge_entry_carries_no_chunk_at_all() {
    let mut sink = records_sink();
    let mut out = Vec::new();
    let mut n = 0;
    push(&mut sink, b"2026-08-21T10:00:00Z live\n", None, (100, 200), &mut n, &mut out);
    finish(&mut sink, &mut n, &mut out);
    let h = heads(&out);
    assert_eq!(h.len(), 1, "{h:?}");
    assert!(!h[0].contains("chunk="), "{}", h[0]);
    assert!(h[0].contains("wf=100"), "{}", h[0]);
}

#[test]
fn a_split_entry_is_attributed_where_it_completed_like_its_window() {
    let mut sink = records_sink();
    let mut out = Vec::new();
    let mut n = 0;
    push(&mut sink, b"2026-08-21T10:00:00Z split ", Some(7), (100, 200), &mut n, &mut out);
    push(&mut sink, b"continues here\n", Some(8), (200, 300), &mut n, &mut out);
    finish(&mut sink, &mut n, &mut out);
    let h = heads(&out);
    assert_eq!(h.len(), 1, "{h:?}");
    assert!(h[0].contains("chunk=8"), "{}", h[0]);
    assert!(
        h[0].contains("wf=200"),
        "the number agrees with the window: {}",
        h[0]
    );
}

#[test]
fn the_cap_holds_and_what_is_past_it_is_counted() {
    let mut s = sink(None, Some(1));
    let mut out = Vec::new();
    let mut n = 0;
    push(
        &mut s,
        b"2026-08-21T10:00:00Z a\n2026-08-21T10:00:01Z b\n",
        Some(1),
        (1, 2),
        &mut n,
        &mut out,
    );
    finish(&mut s, &mut n, &mut out);
    assert_eq!(heads(&out).len(), 1);
    assert_eq!(s.emitted, 1);
    assert_eq!(s.suppressed, 1);
}

#[test]
fn an_entry_outside_the_window_is_left_out_and_an_unstamped_one_is_not() {
    let at = chrono::DateTime::parse_from_rfc3339("2026-08-21T10:00:00Z")
        .unwrap()
        .timestamp_millis() as u64;
    let mut s = sink(Some((at + 1_000, at + 2_000)), None);
    let mut out = Vec::new();
    let mut n = 0;
    push(
        &mut s,
        b"no time here\n2026-08-21T10:00:00Z early\n2026-08-21T10:00:01Z in\n",
        Some(1),
        (1, 2),
        &mut n,
        &mut out,
    );
    finish(&mut s, &mut n, &mut out);
    assert_eq!(heads(&out).len(), 2);
    assert_eq!(s.filtered_out, 1);
}

#[test]
fn a_probe_looks_for_a_stamp_in_the_first_lines() {
    let h = probe_heads(b"one\ntwo\n");
    assert_eq!(h, vec![b"one".to_vec(), b"two".to_vec()]);
    assert!(!probe_stamps(&[None, None]));
    assert!(probe_stamps(&[None, Some(1)]));
}

#[test]
fn the_newest_entry_can_be_had_before_the_next_one_starts() {
    let mut sink = records_sink();
    let mut out = Vec::new();
    let mut n = 0;
    push(&mut sink, b"2026-08-21T10:00:00Z one\nmore\nhalf", Some(1), (100, 200), &mut n, &mut out);
    assert!(out.is_empty(), "it may go on");
    sink.flush_pending(&mut n, &mut out);
    assert_eq!(heads(&out).len(), 1);
    assert!(out.ends_with(b"2026-08-21T10:00:00Z one\nmore\n\0"));
    sink.flush_pending(&mut n, &mut out);
    assert_eq!(heads(&out).len(), 1, "and only once");
    push(&mut sink, b" a line\n", Some(2), (200, 300), &mut n, &mut out);
    finish(&mut sink, &mut n, &mut out);
    assert!(out.ends_with(b"half a line\n\0"), "the partial line was kept");
}

/// The payloads of records, end to end, and how many there are.
fn payloads(mut buf: &[u8]) -> (Vec<u8>, usize) {
    let mut all = Vec::new();
    let mut n = 0;
    while !buf.is_empty() {
        let end = buf.iter().position(|&b| b == 0).unwrap();
        let head = String::from_utf8(buf[..end].to_vec()).unwrap();
        let len = head.split('\x1f').find_map(|f| f.strip_prefix("len=")).unwrap();
        let len: usize = len.parse().unwrap();
        all.extend_from_slice(&buf[end + 1..end + 1 + len]);
        assert_eq!(buf[end + 1 + len], 0);
        buf = &buf[end + 2 + len..];
        n += 1;
    }
    (all, n)
}

#[test]
fn records_carry_every_byte_however_it_was_cut() {
    let data = b"before any stamp\n2026-08-21T10:00:00Z one\n more\0 of it\n\n2026-08-21T10:00:01Z two\nunended";
    for cut in 0..=data.len() {
        let mut sink = records_sink();
        let mut out = Vec::new();
        let mut n = 0;
        push(&mut sink, &data[..cut], Some(1), (100, 200), &mut n, &mut out);
        push(&mut sink, &data[cut..], None, (200, 300), &mut n, &mut out);
        finish(&mut sink, &mut n, &mut out);
        let (all, count) = payloads(&out);
        assert_eq!(all, data);
        assert_eq!((count as u64, sink.filtered_out, sink.suppressed), (sink.emitted, 0, 0));
        assert_eq!(count, 3);
    }
}
