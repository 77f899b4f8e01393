use timberfs::append::MeasureError;
use timberfs::bark::{
    declare_index, declare_policy, declare_wal, declared_retention, derived_map, ensure_identified,
    index_declared, load, merged_format, ms_rfc3339, new_uuid, origin_id, provenance,
    retention_declared, retention_from_map, time_format, try_load, wal_declared, with_identity,
    ManifestError, ManifestFile, Retention, TimeFormat,
};
use timberfs::declare::{
    check_groups, create_manifest, declared_value, set_manifest, validate_cursors_dir,
};
use timberfs::json::{Field, Fields, Json};

const BOOLEAN_KEYS: [&str; 4] = ["index", "wal", "timestamp_utc", "retain_unconsumed"];

fn text(s: &str) -> Json {
    Json::Text(s.into())
}

fn map(pairs: &[(&str, Json)]) -> Fields {
    Fields::of(
        pairs
            .iter()
            .map(|(k, v)| Field {
                key: k.to_string(),
                value: v.clone(),
            })
            .collect(),
    )
}

#[test]
fn provenance_is_where_the_entries_came_from_not_what_the_store_is() {
    let m = map(&[
        ("id", text("abc")),
        ("created", text("2026-08-22T00:00:00Z")),
        ("derived_from", text("xyz")),
        ("index", Json::Bool(true)),
        ("retain", text("90d")),
        ("retain_unconsumed", Json::Bool(true)),
        ("cursors", text("/var/lib/timberfs")),
        ("timestamp_utc", Json::Bool(true)),
        ("wal", Json::Bool(true)),
        ("timberfs.store.id", text("def")),
        ("timberfs.store.path", text("/var/log/x")),
        ("host", text("apache01")),
        ("service", text("apache")),
        ("service.name", text("apache")),
        ("datacentre", text("osl1")),
    ]);
    let p = provenance(&m);
    assert_eq!(p.keys(), ["datacentre", "host", "service", "service.name"]);
    assert!(p.contains_key("service.name"));
    assert!(provenance(&map(&[("index", Json::Bool(true))])).is_empty());
    assert_eq!(origin_id(&m), Some("def".to_string()));
}

#[test]
fn the_backstop_is_not_optional() {
    let err = retention_from_map(&map(&[("retain_unconsumed", Json::Bool(true))]))
        .unwrap_err()
        .message();
    assert!(err.contains("retain_size"), "{err}");
    assert!(retention_from_map(&map(&[
        ("retain_unconsumed", Json::Bool(true)),
        ("retain", text("90d")),
    ]))
    .is_err());
    let p = retention_from_map(&map(&[
        ("retain_unconsumed", Json::Bool(true)),
        ("retain_size", text("50G")),
        ("retain", text("90d")),
    ]))
    .unwrap();
    assert!(p.unconsumed);
    assert_eq!(p.max_comp_bytes, Some(50 * 1024 * 1024 * 1024));
    assert!(p.is_some());
}

#[test]
fn retain_unconsumed_false_needs_nothing_and_declares_nothing() {
    let p = retention_from_map(&map(&[("retain_unconsumed", Json::Bool(false))])).unwrap();
    assert!(!p.unconsumed);
    assert!(!p.is_some(), "a store with no limits at all");
    assert!(retention_from_map(&map(&[("retain_unconsumed", text("yes"))])).is_err());
}

#[test]
fn a_declared_boolean_is_a_boolean_not_the_word() {
    for k in BOOLEAN_KEYS {
        assert_eq!(declared_value(k, "true").unwrap(), Json::Bool(true));
        assert_eq!(declared_value(k, "false").unwrap(), Json::Bool(false));
        assert!(
            declared_value(k, "yes").is_err(),
            "{k}=yes must be refused, not stored as a truthy string"
        );
    }
    assert_eq!(declared_value("host", "edge01").unwrap(), text("edge01"));
}

#[test]
fn the_axis_does_not_inherit_into_a_derived_artifact() {
    let src = map(&[
        ("id", text("abc")),
        ("retain_unconsumed", Json::Bool(true)),
        ("retain_size", text("50G")),
        ("host", text("edge01")),
    ]);
    let derived = derived_map(Some(&src), "rotate");
    assert!(!derived.contains_key("retain_unconsumed"));
    assert!(!derived.contains_key("retain_size"));
    assert_eq!(derived.get("host"), Some(&text("edge01")));
    assert_eq!(derived.get("derived_from"), Some(&text("abc")));
    assert_eq!(derived.get("derived_op"), Some(&text("rotate")));
}

#[test]
fn every_refusal_of_a_manifest_has_its_error() {
    let bad = |m: Fields| retention_from_map(&m).unwrap_err();
    assert!(matches!(bad(map(&[("retain", Json::Whole(5))])), ManifestError::NotText { .. }));
    assert!(matches!(
        bad(map(&[("retain_unconsumed", Json::Whole(1))])),
        ManifestError::NotBool { .. }
    ));
    assert!(matches!(
        bad(map(&[("retain", text("soon"))])),
        ManifestError::Duration(MeasureError::UnrecognizedDuration(_))
    ));
    assert!(matches!(
        bad(map(&[("retain_size", text("lots"))])),
        ManifestError::Size(MeasureError::UnrecognizedSize(_))
    ));
    assert!(matches!(
        bad(map(&[("retain_unconsumed", Json::Bool(true))])),
        ManifestError::NoBackstop
    ));
    let none: Vec<String> = Vec::new();
    let set = |s: &str| set_manifest(Fields::new(), &vec![s.to_string()], &none);
    assert!(matches!(set("nonsense"), Err(ManifestError::NotAPair { .. })));
    assert!(matches!(set("index=yes"), Err(ManifestError::NotTrueOrFalse { .. })));
    assert!(matches!(set("id=x"), Err(ManifestError::Protected { .. })));
    assert!(matches!(set("cursors=relative"), Err(ManifestError::RelativeCursors)));
    assert!(matches!(set("timestamp_regex=("), Err(ManifestError::BadRegex)));
    assert!(matches!(set("timestamp_regex=abc"), Err(ManifestError::NoCaptureGroup)));
    assert!(matches!(
        set_manifest(Fields::new(), &none, &none),
        Err(ManifestError::NothingToDo)
    ));
    let sets = vec!["nonsense".to_string()];
    assert!(matches!(
        create_manifest(false, false, None, None, false, &sets),
        Err(ManifestError::NotASetting { .. })
    ));
}

#[test]
fn setting_keeps_identity_and_can_be_taken_back() {
    let m = map(&[("id", text("abc")), ("host", text("a"))]);
    let sets = vec!["host=b".to_string(), "index=true".to_string()];
    let done = set_manifest(m, &sets, &vec![]).unwrap();
    assert_eq!(done.get("id"), Some(&text("abc")));
    assert_eq!(done.get("host"), Some(&text("b")));
    assert!(index_declared(Some(&done)));
    let done = set_manifest(done, &vec![], &vec!["index".to_string()]).unwrap();
    assert!(!index_declared(Some(&done)));
}

#[test]
fn a_time_pattern_needs_a_group_to_find_the_time_in() {
    assert!(check_groups(Some(2)).is_ok());
    assert!(matches!(check_groups(Some(1)), Err(ManifestError::NoCaptureGroup)));
    assert!(matches!(check_groups(None), Err(ManifestError::BadRegex)));
    let sets = vec![
        "timestamp_regex=^(\\S+)".to_string(),
        "timestamp_format=%Y-%m-%d".to_string(),
    ];
    let m = set_manifest(Fields::new(), &sets, &vec![]).unwrap();
    let f = time_format(Some(&m));
    assert_eq!(f.regex.as_deref(), Some("^(\\S+)"));
    assert_eq!(f.format.as_deref(), Some("%Y-%m-%d"));
    let bad = vec![
        "timestamp_regex=^(\\S+)".to_string(),
        "timestamp_format=%Q".to_string(),
    ];
    assert!(matches!(
        set_manifest(Fields::new(), &bad, &vec![]),
        Err(ManifestError::BadTimeFormat)
    ));
    let given = TimeFormat {
        regex: None,
        format: Some("%s".into()),
        utc: false,
    };
    assert_eq!(merged_format(&given, &f).format.as_deref(), Some("%s"));
    assert_eq!(merged_format(&given, &f).regex.as_deref(), Some("^(\\S+)"));
}

#[test]
fn a_time_is_written_with_its_milliseconds() {
    assert_eq!(ms_rfc3339(0), "1970-01-01T00:00:00.000Z");
    assert_eq!(ms_rfc3339(1_700_000_000_123), "2023-11-14T22:13:20.123Z");
}

#[test]
fn a_random_identity_is_a_version_four_one() {
    let id = new_uuid([0xffu8; 16]);
    assert_eq!(id, "ffffffff-ffff-4fff-bfff-ffffffffffff");
    assert_eq!(new_uuid([0u8; 16]), "00000000-0000-4000-8000-000000000000");
    let m = with_identity(Fields::new(), &id, "2026-01-01T00:00:00Z");
    assert_eq!(m.get("id"), Some(&text(&id)));
    let again = with_identity(m, "other", "later");
    assert_eq!(again.get("id"), Some(&text(&id)));
    assert_eq!(again.get("created"), Some(&text("2026-01-01T00:00:00Z")));
    assert!(ensure_identified(Some(&again)).is_none());
    assert!(ensure_identified(None).is_some());
}

#[test]
fn what_is_declared_is_not_written_twice() {
    let m = declare_index(None).unwrap();
    assert!(index_declared(Some(&m)));
    assert!(declare_index(Some(&m)).is_none());
    let m = declare_wal(Some(&m)).unwrap();
    assert!(wal_declared(Some(&m)) && index_declared(Some(&m)));
    assert!(declare_policy(Some(&m), None, None).is_none());
    let m = declare_policy(Some(&m), Some("30d"), None).unwrap();
    assert_eq!(retention_declared(Some(&m)).unwrap().max_age_ms, Some(30 * 86_400_000));
    assert_eq!(retention_declared(None).unwrap(), Retention::default());
    assert!(validate_cursors_dir("/abs").is_ok());
    assert!(validate_cursors_dir("rel").is_err());
}

#[test]
fn a_manifest_that_cannot_be_used_is_never_no_limits() {
    let policy = |file: &ManifestFile| declared_retention(file, "/d/a.log.bark");
    let content = |c: &str| ManifestFile::Content(c.to_string());
    assert_eq!(policy(&ManifestFile::Missing).unwrap(), Retention::default());
    assert_eq!(policy(&content("{}")).unwrap(), Retention::default());
    let kept = policy(&content(r#"{"retain":"1h","retain_size":"1K","retain_unconsumed":true}"#));
    assert_eq!(
        kept.unwrap(),
        Retention {
            max_age_ms: Some(3_600_000),
            max_comp_bytes: Some(1_024),
            unconsumed: true,
        }
    );
    for bad in ["", "{", "[]", "null", "\"text\"", "{} trailing"] {
        let err = policy(&content(bad)).unwrap_err();
        assert_eq!(err.message(), "/d/a.log.bark is not a JSON object", "{bad:?}");
        let (map, warning) = load(&content(bad), "/d/a.log.bark");
        assert!(map.is_none());
        assert_eq!(
            warning.unwrap(),
            "timberfs: warning: /d/a.log.bark is not a JSON object; ignoring it"
        );
    }
    let denied = ManifestFile::Unreadable("permission denied".to_string());
    assert_eq!(policy(&denied).unwrap_err().message(), "permission denied");
    assert!(try_load(&denied, "/d/a.log.bark").is_err());
    assert!(try_load(&ManifestFile::Missing, "/d/a.log.bark").unwrap().is_none());
    let read = try_load(&content(r#"{"host":"a"}"#), "/d/a.log.bark").unwrap().unwrap();
    assert_eq!(read.text_at("host").as_deref(), Some("a"));
    assert!(policy(&content(r#"{"retain_unconsumed":true}"#)).is_err());
    assert!(policy(&content(r#"{"retain":5}"#)).is_err());
    assert!(policy(&content(r#"{"retain_size":"much"}"#)).is_err());
    assert!(policy(&content(r#"{"retain_unconsumed":"yes"}"#)).is_err());
}
