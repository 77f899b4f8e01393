use timberfs::export::{
    bundle_mtime, export_manifest, export_note, index_bytes, member_name, rebase, select_chunks,
    ChunksReader, ExportError,
};
use timberfs::format::{header_next_seq, header_store_id, parse_index_bytes, ChunkRecord};
use timberfs::json::{Fields, Json};

fn chunk(seq: u64) -> ChunkRecord {
    ChunkRecord {
        uncomp_start: seq * 100,
        uncomp_len: 100,
        comp_start: seq * 10,
        comp_len: 10,
        first_write_ms: seq * 1_000,
        last_write_ms: seq * 1_000 + 999,
        seq,
    }
}

#[test]
fn a_window_selects_the_chunks_that_reach_into_it() {
    let all: Vec<ChunkRecord> = (0..5).map(chunk).collect();
    let seqs = |v: Vec<ChunkRecord>| v.iter().map(|c| c.seq).collect::<Vec<_>>();
    assert_eq!(seqs(select_chunks(&all, None, None, true).unwrap()), [0, 1, 2, 3, 4]);
    assert_eq!(seqs(select_chunks(&all, Some(1_500), Some(3_000), true).unwrap()), [1, 2, 3]);
    assert!(select_chunks(&all, Some(9_000), None, false).unwrap().is_empty());
    assert!(select_chunks(&all, Some(9_000), None, true).is_err());
    let e: ExportError = select_chunks(&all, Some(9), Some(3), false).err().unwrap_or_else(|| {
        select_chunks(&[], None, None, true).unwrap_err()
    });
    assert!(!e.message().is_empty());
}

#[test]
fn a_rebase_starts_the_chunks_over_and_keeps_their_numbers() {
    let cut = [chunk(3), chunk(4)];
    let r = rebase(&cut);
    assert_eq!((r.uncomp_bytes, r.comp_bytes), (200, 20));
    assert_eq!((r.records[0].uncomp_start, r.records[0].comp_start), (0, 0));
    assert_eq!((r.records[1].uncomp_start, r.records[1].comp_start), (100, 10));
    assert_eq!((r.records[1].seq, r.records[1].last_write_ms), (4, 4_999));
    let bytes = index_bytes(&r.records, Some([7u8; 16]));
    assert_eq!(parse_index_bytes(&bytes).unwrap(), r.records);
    assert_eq!(header_next_seq(&bytes), 5);
    assert_eq!(header_store_id(&bytes), Some([7u8; 16]));
    assert_eq!(bundle_mtime(&cut, 1), 4);
    assert_eq!(bundle_mtime(&[], 1), 1);
    assert_eq!(
        export_note(2, 5, &r, Some(("A", "B")), "out", true),
        "timberfs: exported 2 of 5 chunk(s), 200 bytes (20 compressed), spanning A .. B -> out (bundle)"
    );
    assert!(export_note(0, 5, &r, None, "out", false).contains("empty window"));
}

#[test]
fn an_exported_manifest_states_the_window() {
    let mut src = Fields::new();
    src.insert("id", Json::Text("abc".into()));
    src.insert("host", Json::Text("web".into()));
    let m = export_manifest(Some(&src), Some(0), None);
    assert_eq!(m.keys(), ["derived_from", "derived_op", "host", "window_from"]);
    assert_eq!(m.get("window_from"), Some(&Json::Text("1970-01-01T00:00:00.000Z".into())));
    assert_eq!(member_name("app", "rings"), "app.rings");
}

#[test]
fn a_reader_hands_out_every_byte_in_order() {
    let all = [chunk(3), chunk(5)];
    let mut r = ChunksReader::start();
    let mut got = Vec::new();
    while let Some(p) = r.next_piece(&all, 4) {
        got.push((p.at, p.len));
        r.advance(&all, p.len as u64);
    }
    assert_eq!(got, [(30, 4), (34, 4), (38, 2), (50, 4), (54, 4), (58, 2)]);
}
