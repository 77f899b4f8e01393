use timberfs::consumer::{hello, note, progress, Diet, Reader, Report, ReportError};


fn read(stream: &[u8]) -> Result<Vec<Report>, ReportError> {
    let mut r = Reader::new(stream);
    let mut out = Vec::new();
    while let Some(rep) = r.next_report()? {
        out.push(rep);
    }
    Ok(out)
}

#[test]
fn what_a_consumer_emits_is_what_the_follower_reads() {
    let mut stream = hello(Diet::Records, &[("aaa".into(), 424242)]);
    stream.extend(progress("aaa", 33724753900));
    stream.extend(note(Some("aaa"), Some(33724753900), "400: entry refused"));
    stream.extend(note(None, None, "collector.internal unreachable"));

    let reports = read(&stream).unwrap();
    assert_eq!(reports.len(), 4);
    match &reports[0] {
        Report::Hello { reads, holds } => {
            assert_eq!(*reads, Diet::Records);
            assert_eq!(holds, &[("aaa".to_string(), 424242)]);
        }
        _ => panic!("expected a hello"),
    }
    match &reports[1] {
        Report::Progress { id, offset } => {
            assert_eq!((id.as_str(), *offset), ("aaa", 33724753900));
        }
        _ => panic!("expected progress"),
    }
    match (&reports[2], &reports[3]) {
        (
            Report::Note {
                id: Some(id),
                offset: Some(off),
                text,
            },
            Report::Note {
                id: None,
                offset: None,
                text: about_me,
            },
        ) => {
            assert_eq!((id.as_str(), *off), ("aaa", 33724753900));
            assert_eq!(text, "400: entry refused");
            assert_eq!(about_me, "collector.internal unreachable");
        }
        _ => panic!("expected two notes, one of them about the consumer itself"),
    }
}

#[test]
fn nothing_is_accepted_before_a_hello() {
    let err = read(&progress("aaa", 5)).unwrap_err().message();
    assert!(err.contains("before saying hello"), "{err}");
    let err = read(&note(Some("aaa"), None, "hi"))
        .unwrap_err()
        .message();
    assert!(err.contains("before saying hello"), "{err}");
}

#[test]
fn a_note_carrying_delimiters_survives_them() {
    let nasty = "US \u{1f} NUL \u{0} RS \u{1e} newline \n tab \t quote \" done";
    let mut stream = hello(Diet::Records, &[]);
    stream.extend(note(None, None, nasty));
    let text_field = stream.split(|&b| b == 0x1f).next_back().unwrap();
    assert!(text_field.starts_with(b"text="));
    assert!(
        !text_field[5..].contains(&0x1e),
        "a raw RS reached the wire"
    );

    let reports = read(&stream).unwrap();
    match &reports[1] {
        Report::Note { text, .. } => assert_eq!(text, nasty),
        _ => panic!("expected a note"),
    }
}

#[test]
fn an_unknown_kind_or_field_is_skipped_not_fatal() {
    let mut stream = hello(Diet::Records, &[]);
    stream.extend_from_slice(b"\x1ewhatever\x1fx=1\0");
    stream.extend_from_slice(b"\x1eprogress\x1fid=aaa\x1foffset=7\x1fsomething=new\0");
    let reports = read(&stream).unwrap();
    assert_eq!(
        reports.len(),
        2,
        "the unknown kind is gone, the rest is not"
    );
    match &reports[1] {
        Report::Progress { id, offset } => assert_eq!((id.as_str(), *offset), ("aaa", 7)),
        _ => panic!("expected progress"),
    }
}

#[test]
fn a_version_or_diet_this_build_does_not_know_is_refused_by_name() {
    let err = read(b"\x1ehello\x1fv=2\x1freads=records\0")
        .unwrap_err()
        .message();
    assert!(err.contains("version \"2\""), "{err}");
    let err = read(b"\x1ehello\x1fv=1\x1freads=interpretive-dance\0")
        .unwrap_err()
        .message();
    assert!(err.contains("interpretive-dance"), "{err}");
}

#[test]
fn garbage_is_refused_rather_than_skipped() {
    assert!(read(b"not a record at all\0").is_err());
    assert!(
        read(b"\x1ehello\x1fv=1\0\x1eprogress\x1fid=aaa\0").is_err(),
        "no offset"
    );
    assert!(
        read(b"\x1ehello\x1fv=1\x1fholds=[1,2]\0").is_err(),
        "holds is not an object"
    );
    assert!(
        read(b"\x1ehello\x1fv=1\0\x1enote\x1ftext=bare\0").is_err(),
        "text is not a JSON string"
    );
}

#[test]
fn a_report_cut_anywhere_waits_for_the_rest() {
    let mut stream = hello(Diet::Records, &[("b".into(), 2), ("a".into(), 1)]);
    stream.extend(progress("aaa", 7));
    let whole = read(&stream).unwrap();
    let (first, rest) = stream.split_at(10);
    let mut r = Reader::new(first);
    r.extend(rest);
    let mut got = Vec::new();
    while let Some(rep) = r.next_report().unwrap() {
        got.push(rep);
    }
    assert_eq!(got, whole);
    match &whole[0] {
        Report::Hello { holds, .. } => {
            assert_eq!(holds, &[("a".to_string(), 1), ("b".to_string(), 2)]);
        }
        _ => panic!("expected a hello"),
    }
}

#[test]
fn every_refusal_of_a_report_has_its_error() {
    let cases: [(&[u8], ReportError); 9] = [
        (b"\x1ehello\x1fv=1\x1freads=records", ReportError::Truncated),
        (b"hello\0", ReportError::Unmarked),
        (b"\x1ehello\x1fv=2\0", ReportError::OtherVersion("2".into())),
        (b"\x1ehello\x1fv=1\x1freads=x\0", ReportError::UnknownDiet("x".into())),
        (b"\x1ehello\x1fv=1\0\x1eprogress\x1foffset=1\0", ReportError::NoStore),
        (b"\x1ehello\x1fv=1\0\x1eprogress\x1fid=a\x1foffset=x\0", ReportError::OffsetNotANumber),
        (b"\x1ehello\x1fv=1\0\x1enote\x1fid=a\0", ReportError::NoText),
        (b"\x1ehello\x1fv=1\x1fholds=[]\0", ReportError::HoldsNotAnObject),
        (
            b"\x1ehello\x1fv=1\x1fholds={\"a\":\"x\"}\0",
            ReportError::HoldsNotANumber("a".into()),
        ),
    ];
    for (stream, want) in cases {
        let got = read(stream).unwrap_err();
        assert!(!got.message().is_empty());
        assert_eq!(got, want);
    }
}

#[test]
fn a_reader_that_ran_dry_goes_on_where_it_was() {
    let mut r = Reader::new(&hello(Diet::Records, &[]));
    assert!(matches!(r.next_report(), Ok(Some(Report::Hello { .. }))));
    assert!(matches!(r.next_report(), Ok(None)));
    r.extend(b"\x1efuture\x1fk=v\0");
    assert!(matches!(r.next_report(), Ok(None)), "an unknown kind is nothing");
    r.extend(&progress("a", 7));
    assert!(
        matches!(r.next_report(), Ok(Some(Report::Progress { offset: 7, .. }))),
        "the hello is not forgotten"
    );
    r.extend(b"garbage\0");
    r.extend(&progress("a", 9));
    assert!(matches!(r.next_report(), Err(ReportError::Unmarked)));
    assert!(
        matches!(r.next_report(), Ok(Some(Report::Progress { offset: 9, .. }))),
        "what was refused is behind the reader"
    );
}
