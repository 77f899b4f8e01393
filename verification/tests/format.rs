use timberfs::format::{
    bark_path, grain_path, header_dropped, header_next_seq, header_store_id, parse_index_bytes,
    parse_index_versioned, rings_header, rings_path, sap_path, sap_seal_path, seq_path, trim_path,
    trunk_path, uuid_bytes, uuid_text, ChunkRecord, Dropped, IndexError, RingsVersion, RECORD_LEN_V1,
    RINGS_HEADER_LEN, RINGS_HEADER_MIN, RINGS_MAGIC, RINGS_MAGIC_V1, STORE_ID_OFF,
};


fn rec(seq: u64) -> ChunkRecord {
    ChunkRecord {
        uncomp_start: seq * 10,
        uncomp_len: 10,
        comp_start: seq * 4,
        comp_len: 4,
        first_write_ms: 100 + seq,
        last_write_ms: 100 + seq,
        seq,
    }
}

fn image(header_len: u64, incompat: u64, n: u64) -> Vec<u8> {
    let mut buf = vec![0u8; header_len as usize];
    buf[0..8].copy_from_slice(&RINGS_MAGIC);
    buf[8..16].copy_from_slice(&header_len.to_le_bytes());
    buf[16..24].copy_from_slice(&incompat.to_le_bytes());
    buf[24..32].copy_from_slice(&n.to_le_bytes());
    for i in 0..n {
        buf.extend_from_slice(&rec(i).to_bytes());
    }
    buf
}

#[test]
fn a_longer_header_from_a_later_version_still_parses() {
    let buf = image(128, 0, 3);
    let (recs, ver) = parse_index_versioned(&buf).unwrap();
    assert_eq!(ver, RingsVersion::V2);
    assert_eq!(recs.len(), 3);
    assert_eq!(recs.iter().map(|c| c.seq).collect::<Vec<_>>(), [0, 1, 2]);
    assert_eq!(header_next_seq(&buf), 3);
}

#[test]
fn an_unknown_incompat_bit_is_refused_not_guessed_at() {
    let buf = image(RINGS_HEADER_LEN, 0b10, 2);
    let e = parse_index_versioned(&buf).unwrap_err();
    assert!(e.message().contains("unsupported features"), "{}", e.message());
    assert!(parse_index_versioned(&image(RINGS_HEADER_LEN, 0, 2)).is_ok());
}

#[test]
fn an_impossible_header_length_is_refused() {
    let mut buf = image(RINGS_HEADER_LEN, 0, 1);
    buf[8..16].copy_from_slice(&8u64.to_le_bytes());
    assert!(parse_index_versioned(&buf).is_err());
    let mut buf = image(RINGS_HEADER_LEN, 0, 1);
    buf[8..16].copy_from_slice(&u64::MAX.to_le_bytes());
    assert!(parse_index_versioned(&buf).is_err());
}

#[test]
fn the_header_this_version_writes_round_trips() {
    let h = rings_header(42, Dropped::default(), None);
    assert_eq!(h[..8], RINGS_MAGIC);
    assert_eq!(
        u64::from_le_bytes(h[8..16].try_into().unwrap()),
        RINGS_HEADER_LEN
    );
    assert_eq!(u64::from_le_bytes(h[16..24].try_into().unwrap()), 0);
    assert_eq!(header_next_seq(&h), 42);
    assert!(h[32..].iter().all(|&b| b == 0));
}

#[test]
fn the_header_carries_the_store_id_and_zero_means_none() {
    let id = uuid_bytes("0d01f72b-cc35-4da6-aa3a-77a6ced1b996").unwrap();
    let h = rings_header(7, Dropped::default(), Some(id));
    assert_eq!(header_store_id(&h), Some(id));
    assert_eq!(uuid_text(&id), "0d01f72b-cc35-4da6-aa3a-77a6ced1b996");
    assert_eq!(
        header_store_id(&rings_header(7, Dropped::default(), None)),
        None
    );
    let plain = rings_header(7, Dropped::default(), None);
    assert_eq!(h[..STORE_ID_OFF], plain[..STORE_ID_OFF]);
}

#[test]
fn a_header_that_cannot_hold_an_id_reports_none_rather_than_reading_past_itself() {
    let h = rings_header(7, Dropped::default(), Some([9u8; 16]));
    assert_eq!(header_store_id(&h[..RINGS_HEADER_MIN as usize]), None);
    let mut short = h;
    short[8..16].copy_from_slice(&32u64.to_le_bytes());
    assert_eq!(header_store_id(&short), None);
    assert_eq!(header_store_id(&[0u8; 64]), None);
}

#[test]
fn only_a_real_uuid_becomes_sixteen_bytes() {
    assert!(uuid_bytes("0d01f72b-cc35-4da6-aa3a-77a6ced1b996").is_some());
    assert_eq!(
        uuid_bytes("0d01f72bcc354da6aa3a77a6ced1b996"),
        uuid_bytes("0d01f72b-cc35-4da6-aa3a-77a6ced1b996")
    );
    assert!(uuid_bytes("").is_none());
    assert!(uuid_bytes("not-a-uuid").is_none());
    assert!(
        uuid_bytes("0d01f72b-cc35-4da6-aa3a-77a6ced1b99").is_none(),
        "short"
    );
    assert!(
        uuid_bytes("zd01f72b-cc35-4da6-aa3a-77a6ced1b996").is_none(),
        "non-hex"
    );
}

#[test]
fn a_record_round_trips_including_its_number() {
    let r = rec(7);
    let back = ChunkRecord::from_bytes(&r.to_bytes());
    assert_eq!(
        (back.seq, back.uncomp_start, back.last_write_ms),
        (7, 70, 107)
    );
    let v1 = &r.to_bytes()[..RECORD_LEN_V1];
    let back = ChunkRecord::from_bytes_v1(v1, 99);
    assert_eq!((back.seq, back.uncomp_start), (99, 70));
}

#[test]
fn a_store_is_its_files() {
    assert_eq!(trunk_path("/d", "a.log"), "/d/a.log.trunk");
    assert_eq!(rings_path("/d", "a.log"), "/d/a.log.rings");
    assert_eq!(grain_path("/d", "a.log"), "/d/a.log.grain");
    assert_eq!(bark_path("/d/", "a.log"), "/d/a.log.bark");
    assert_eq!(seq_path("/d", "a.log"), "/d/a.log.seq");
    assert_eq!(trim_path("/d", "a.log"), "/d/a.log.trim");
    assert_eq!(sap_path("/d", "a.log"), "/d/a.log.sap");
    assert_eq!(sap_seal_path("/d", "a.log"), "/d/a.log.sap.seal");
}

#[test]
fn an_index_before_the_numbering_is_numbered_by_position() {
    let mut buf = RINGS_MAGIC_V1.to_vec();
    for i in 0..3u64 {
        buf.extend_from_slice(&rec(10 + i).to_bytes()[..RECORD_LEN_V1]);
    }
    let (recs, ver) = parse_index_versioned(&buf).unwrap();
    assert_eq!(ver, RingsVersion::V1);
    assert_eq!(recs.iter().map(|c| c.seq).collect::<Vec<_>>(), [0, 1, 2]);
    assert_eq!(recs[0].uncomp_start, 100);
}

#[test]
fn an_index_reads_back_and_every_refusal_has_its_error() {
    let mut buf = rings_header(2, Dropped { uncomp_bytes: 5, comp_bytes: 6 }, Some([1u8; 16])).to_vec();
    buf.extend_from_slice(&rec(0).to_bytes());
    buf.extend_from_slice(&rec(1).to_bytes());
    assert_eq!(header_dropped(&buf), Dropped { uncomp_bytes: 5, comp_bytes: 6 });
    let recs = parse_index_bytes(&buf).unwrap();
    assert_eq!(recs, vec![rec(0), rec(1)]);
    assert!(matches!(parse_index_bytes(b"garbage!"), Err(IndexError::BadMagic)));
    let mut bad = buf.clone();
    bad[8..16].copy_from_slice(&8u64.to_le_bytes());
    assert!(matches!(parse_index_bytes(&bad), Err(IndexError::ImpossibleHeader { .. })));
    let mut odd = buf;
    odd[16..24].copy_from_slice(&2u64.to_le_bytes());
    assert!(matches!(parse_index_bytes(&odd), Err(IndexError::Unsupported { .. })));
}
