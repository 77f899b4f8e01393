use timberfs::frame::{
    decode, decode_hello, encode, encode_hello, put_u32, put_u64, uuid_bytes, uuid_string, Frame,
    FrameError, Framed, Hello, Mode, Run, Sidecar, FRAME_HEADER_LEN, HELLO_LEN, MAX_PAYLOAD,
    OPEN_ENDED, SIDECAR_ENTRY_LEN, VERSION,
};


fn id(n: u8) -> [u8; 16] {
    [n; 16]
}

fn roundtrip(f: Framed) -> Framed {
    let mut buf = Vec::new();
    encode(&f, &mut buf);
    let (got, used) = decode(&buf).unwrap().expect("a whole frame");
    assert_eq!(used, buf.len(), "decode consumed the whole frame");
    assert_eq!(got, f);
    got
}

#[test]
fn every_frame_round_trips() {
    roundtrip(Framed {
        stream: 0,
        frame: Frame::StreamOpen {
            origin_id: id(1),
            sender_id: id(2),
            first_seq: 0,
            last_seq: OPEN_ENDED,
            mode: Mode::Frames,
            provenance: br#"{"host":"apache01"}"#.to_vec(),
            sidecars: vec![Sidecar {
                kind: Sidecar::tag("GRAIN001"),
                bytes: vec![0xab; 16],
            }],
        },
    });
    roundtrip(Framed {
        stream: 7,
        frame: Frame::Chunk {
            seq: 424_242,
            uncomp_len: 262_144,
            comp_len: 5,
            comp: Some(vec![1, 2, 3, 4, 5]),
            first_write_ms: 1_700_000_000_000,
            last_write_ms: 1_700_000_005_000,
            sidecars: vec![
                Sidecar {
                    kind: Sidecar::tag("GRAIN001"),
                    bytes: vec![9; 8],
                },
                Sidecar {
                    kind: Sidecar::tag("XXH3"),
                    bytes: vec![7; 8],
                },
            ],
        },
    });
    roundtrip(Framed {
        stream: 1,
        frame: Frame::Coverage {
            runs: vec![Run { start: 0, end: 5 }, Run { start: 7, end: 7 }],
        },
    });
    roundtrip(Framed {
        stream: 1,
        frame: Frame::Accepted {
            registration_id: id(3),
            runs: vec![Run {
                start: 0,
                end: 424_242,
            }],
        },
    });
    roundtrip(Framed {
        stream: 1,
        frame: Frame::Conflict {
            holder_origin: id(4),
            runs: vec![Run {
                start: 0,
                end: 424_242,
            }],
            reason: "held by another origin".to_string(),
        },
    });
    roundtrip(Framed {
        stream: 0,
        frame: Frame::Coverage { runs: vec![] },
    });
}

#[test]
fn an_unknown_kind_is_skippable_which_is_the_whole_point() {
    let mut buf = Vec::new();
    encode(
        &Framed {
            stream: 3,
            frame: Frame::Unknown {
                kind: 4242,
                payload: vec![0xde; 300],
            },
        },
        &mut buf,
    );
    let known = Framed {
        stream: 3,
        frame: Frame::Coverage {
            runs: vec![Run { start: 1, end: 2 }],
        },
    };
    encode(&known, &mut buf);

    let (first, used) = decode(&buf).unwrap().unwrap();
    match &first.frame {
        Frame::Unknown { kind, payload } => {
            assert_eq!(*kind, 4242);
            assert_eq!(payload.len(), 300);
        }
        other => panic!("expected Unknown, got {other:?}"),
    }
    let (second, _) = decode(&buf[used..]).unwrap().unwrap();
    assert_eq!(second, known, "the stream resynchronises after a skip");
}

#[test]
fn a_partial_buffer_asks_for_more_rather_than_failing() {
    let mut buf = Vec::new();
    encode(
        &Framed {
            stream: 0,
            frame: Frame::Chunk {
                seq: 1,
                uncomp_len: 10,
                comp_len: 4,
                comp: Some(vec![1, 2, 3, 4]),
                first_write_ms: 5,
                last_write_ms: 6,
                sidecars: vec![],
            },
        },
        &mut buf,
    );
    for n in 0..buf.len() {
        assert_eq!(decode(&buf[..n]), Ok(None), "prefix of {n} bytes");
    }
    assert!(decode(&buf).unwrap().is_some());
}

#[test]
fn index_mode_carries_the_true_size_without_the_bytes() {
    let f = roundtrip(Framed {
        stream: 0,
        frame: Frame::Chunk {
            seq: 9,
            uncomp_len: 262_144,
            comp_len: 25_919,
            comp: None,
            first_write_ms: 1,
            last_write_ms: 2,
            sidecars: vec![Sidecar {
                kind: Sidecar::tag("GRAIN001"),
                bytes: vec![3; 44],
            }],
        },
    });
    match &f.frame {
        Frame::Chunk { comp, comp_len, .. } => {
            assert!(comp.is_none());
            assert_eq!(*comp_len, 25_919, "the size survives without the bytes");
        }
        other => panic!("{other:?}"),
    }
    let mut buf = Vec::new();
    encode(&f, &mut buf);
    assert!(buf.len() < 128, "index frame was {} bytes", buf.len());
}

#[test]
fn a_chunk_payload_that_is_neither_absent_nor_whole_is_refused() {
    let mut buf = Vec::new();
    encode(
        &Framed {
            stream: 0,
            frame: Frame::Chunk {
                seq: 1,
                uncomp_len: 10,
                comp_len: 8,
                comp: Some(vec![0; 8]),
                first_write_ms: 1,
                last_write_ms: 2,
                sidecars: vec![],
            },
        },
        &mut buf,
    );
    let len = u32::from_le_bytes(buf[8..12].try_into().unwrap());
    buf[8..12].copy_from_slice(&(len - 1).to_le_bytes());
    buf.pop();
    assert!(matches!(decode(&buf), Err(FrameError::Inconsistent(_))));
}

#[test]
fn declared_lengths_are_bounded_before_anything_is_allocated() {
    let mut buf = Vec::new();
    put_u32(&mut buf, 0);
    put_u32(&mut buf, 3); // Coverage
    put_u32(&mut buf, 4);
    put_u32(&mut buf, u32::MAX); // run count
    assert!(matches!(decode(&buf), Err(FrameError::Inconsistent(_))));

    let mut buf = Vec::new();
    put_u32(&mut buf, 0);
    put_u32(&mut buf, 2); // Chunk
    put_u32(&mut buf, 44);
    for _ in 0..5 {
        put_u64(&mut buf, 0);
    }
    put_u32(&mut buf, u32::MAX); // sidecar count
    assert!(matches!(decode(&buf), Err(FrameError::Inconsistent(_))));

    let mut buf = Vec::new();
    put_u32(&mut buf, 0);
    put_u32(&mut buf, 3);
    put_u32(&mut buf, MAX_PAYLOAD + 1);
    assert_eq!(decode(&buf), Err(FrameError::TooLarge(MAX_PAYLOAD + 1)));
}

#[test]
fn open_ended_is_not_seq_zero() {
    let f = roundtrip(Framed {
        stream: 0,
        frame: Frame::StreamOpen {
            origin_id: id(1),
            sender_id: id(2),
            first_seq: 0,
            last_seq: 0,
            mode: Mode::Index,
            provenance: vec![],
            sidecars: vec![],
        },
    });
    match f.frame {
        Frame::StreamOpen { last_seq, .. } => {
            assert_eq!(last_seq, 0);
            assert_ne!(last_seq, OPEN_ENDED);
        }
        other => panic!("{other:?}"),
    }
}

#[test]
fn the_hello_refuses_what_it_cannot_honour() {
    let h = Hello {
        version: VERSION,
        incompat: 0,
    };
    let b = encode_hello(h);
    assert_eq!(decode_hello(&b).unwrap(), Some((h, HELLO_LEN)));
    assert_eq!(decode_hello(&b[..8]), Ok(None));
    assert_eq!(decode_hello(b"NOPE0000________"), Err(FrameError::BadMagic));
    let mut newer = b;
    newer[8..12].copy_from_slice(&(VERSION + 1).to_le_bytes());
    assert_eq!(
        decode_hello(&newer),
        Err(FrameError::BadVersion(VERSION + 1))
    );
    let mut flagged = b;
    flagged[12..16].copy_from_slice(&1u32.to_le_bytes());
    assert_eq!(decode_hello(&flagged), Err(FrameError::Incompatible(1)));
}

#[test]
fn mode_zero_is_reserved_so_an_unset_field_cannot_pass() {
    let mut buf = Vec::new();
    encode(
        &Framed {
            stream: 0,
            frame: Frame::StreamOpen {
                origin_id: id(1),
                sender_id: id(2),
                first_seq: 0,
                last_seq: 0,
                mode: Mode::Frames,
                provenance: vec![],
                sidecars: vec![],
            },
        },
        &mut buf,
    );
    buf[60..64].copy_from_slice(&0u32.to_le_bytes());
    assert_eq!(decode(&buf), Err(FrameError::BadMode(0)));
}

#[test]
fn several_frames_decode_from_one_buffer() {
    let frames = vec![
        Framed {
            stream: 0,
            frame: Frame::Coverage {
                runs: vec![Run { start: 0, end: 1 }],
            },
        },
        Framed {
            stream: 1,
            frame: Frame::Chunk {
                seq: 2,
                uncomp_len: 3,
                comp_len: 2,
                comp: Some(vec![8, 9]),
                first_write_ms: 4,
                last_write_ms: 5,
                sidecars: vec![],
            },
        },
        Framed {
            stream: 0,
            frame: Frame::Coverage { runs: vec![] },
        },
    ];
    let mut buf = Vec::new();
    for f in &frames {
        encode(f, &mut buf);
    }
    let mut at = 0;
    for want in &frames {
        let (got, used) = decode(&buf[at..]).unwrap().unwrap();
        assert_eq!(&got, want);
        at += used;
    }
    assert_eq!(at, buf.len(), "no trailing bytes");
    assert_eq!(decode(&buf[at..]), Ok(None));
}

#[test]
fn the_per_chunk_overhead_is_what_the_design_claims() {
    let comp = vec![0u8; 25_919]; // the measured mean frame size
    let bare = Framed {
        stream: 0,
        frame: Frame::Chunk {
            seq: 1,
            uncomp_len: 262_144,
            comp_len: comp.len() as u64,
            comp: Some(comp.clone()),
            first_write_ms: 1,
            last_write_ms: 2,
            sidecars: vec![],
        },
    };
    let mut buf = Vec::new();
    encode(&bare, &mut buf);
    let overhead = buf.len() - comp.len();
    assert_eq!(
        overhead,
        FRAME_HEADER_LEN + 44,
        "12 header + 40 fixed + 4 count"
    );
    assert!(
        (overhead as f64) / (comp.len() as f64) < 0.003,
        "overhead {overhead} B on a {} B chunk",
        comp.len()
    );

    let with_grain = Framed {
        stream: 0,
        frame: Frame::Chunk {
            seq: 1,
            uncomp_len: 262_144,
            comp_len: comp.len() as u64,
            comp: Some(comp.clone()),
            first_write_ms: 1,
            last_write_ms: 2,
            sidecars: vec![Sidecar {
                kind: Sidecar::tag("GRAIN001"),
                bytes: vec![0; 44],
            }],
        },
    };
    let mut buf2 = Vec::new();
    encode(&with_grain, &mut buf2);
    assert_eq!(buf2.len(), buf.len() + SIDECAR_ENTRY_LEN + 44);
}

#[test]
fn uuids_round_trip_in_the_form_the_manifest_writes() {
    let s = "899c8aad-4d3d-4c60-b125-ee5ce7e1cc86";
    let b = uuid_bytes(s).expect("parses");
    assert_eq!(uuid_string(&b), s);
    assert_eq!(uuid_bytes("not-a-uuid"), None);
    assert_eq!(uuid_bytes(""), None);
    assert_eq!(uuid_bytes("899c8aad-4d3d-4c60-b125-ee5ce7e1ccZZ"), None);
}

#[test]
fn a_sidecar_kind_we_do_not_know_survives_the_trip_intact() {
    let f = roundtrip(Framed {
        stream: 0,
        frame: Frame::Chunk {
            seq: 1,
            uncomp_len: 2,
            comp_len: 0,
            comp: None,
            first_write_ms: 3,
            last_write_ms: 4,
            sidecars: vec![Sidecar {
                kind: Sidecar::tag("FUTURE99"),
                bytes: vec![1, 2, 3],
            }],
        },
    });
    match f.frame {
        Frame::Chunk { sidecars, .. } => {
            assert_eq!(sidecars[0].kind, Sidecar::tag("FUTURE99"));
            assert_eq!(sidecars[0].bytes, vec![1, 2, 3]);
        }
        other => panic!("{other:?}"),
    }
}

#[test]
fn every_frame_error_says_what_is_wrong() {
    assert_eq!(FrameError::BadMagic.message(), "not a timberfs replication stream");
    assert!(FrameError::BadVersion(9).message().contains('9'));
    assert!(FrameError::Incompatible(4).message().contains('4'));
    assert!(FrameError::TooLarge(77).message().contains("77"));
    assert!(FrameError::BadMode(3).message().contains('3'));
    assert!(!FrameError::BadUtf8.message().is_empty());
    assert!(FrameError::Inconsistent("the runs").message().contains("the runs"));
    let mut buf = Vec::new();
    encode(
        &Framed {
            stream: 0,
            frame: Frame::Conflict {
                holder_origin: id(1),
                runs: vec![],
                reason: "x".into(),
            },
        },
        &mut buf,
    );
    let last = buf.len() - 1;
    buf[last] = 0xff;
    assert_eq!(decode(&buf), Err(FrameError::BadUtf8));
}
