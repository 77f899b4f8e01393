use timberfs::file_intake::{
    check_line, converge_sets, parse, FileSet, IntakeError, SetEnd, SetRun, TailAction,
    DEFAULT_FLUSH_AGE_MS, DEFAULT_POLL_MS,
};

fn one(text: &str) -> Result<FileSet, IntakeError> {
    parse("exim", text)
}

#[test]
fn a_section_is_a_store_and_inherits_the_sets_defaults() {
    let set = one("STORE_DIR=/srv/logs\n\
         DECLARE=index=true retain=90d\n\
         POLL=2s\n\
         \n\
         [exim-main]\n\
         SOURCE=/var/log/exim4/mainlog\n\
         \n\
         [exim-panic]\n\
         SOURCE=/var/log/exim4/paniclog\n\
         DECLARE=retain=365d\n\
         FLUSH_AGE=5s\n")
    .unwrap();
    assert_eq!(set.entries.len(), 2);

    let main = &set.entries[0];
    assert_eq!(main.store, "exim-main");
    assert_eq!(main.dest(), "/srv/logs/exim-main/exim-main.log");
    assert_eq!(main.declare, ["index=true", "retain=90d"]);
    assert_eq!(main.poll_ms, 2_000);
    assert_eq!(main.flush_age_ms, DEFAULT_FLUSH_AGE_MS);

    let panic = &set.entries[1];
    assert_eq!(panic.declare, ["retain=365d"]);
    assert_eq!(panic.flush_age_ms, 5_000);
    assert_eq!(panic.poll_ms, 2_000, "what it did not state, it inherits");
    assert_eq!(panic.store_dir, "/srv/logs");
}

#[test]
fn a_declaration_that_would_collect_nothing_is_refused() {
    let cases = [
        ("STORE_DIR=/srv\n", "would follow nothing"),
        ("[a]\n", "declares no SOURCE"),
        (
            "SOURCE=/var/log/x\n[a]\nSOURCE=/var/log/y\n",
            "belongs to a section",
        ),
        ("[a]\nSOURCE=relative/path\n", "must be an absolute path"),
        ("[a]\nSOURCE=/x\nRETAIN=90d\n", "unknown key"),
        (
            "[a]\nSOURCE=/x\n[a]\nSOURCE=/y\n",
            "already declared on line",
        ),
        ("[a]\nSOURCE=/x\n[b]\nSOURCE=/x\n", "both follow /x"),
        ("[a b]\nSOURCE=/x\n", "not allowed in a handle"),
        ("[.hidden]\nSOURCE=/x\n", "a leading dot"),
        ("[a\nSOURCE=/x\n", "ends with ']'"),
        ("nonsense\n", "expected KEY=VALUE"),
        ("[a]\nSOURCE=/x\nPOLL=never\n", "POLL=never"),
    ];
    for (text, want) in cases {
        let err = one(text).expect_err(text);
        let msg = err.message();
        assert!(msg.contains(want), "{text:?} gave {msg:?}, wanted {want:?}");
    }
}

#[test]
fn every_refusal_of_a_set_has_its_error() {
    assert!(matches!(one("[]\n"), Err(IntakeError::EmptyName { line: 1 })));
    assert!(matches!(
        one("[a]\nSOURCE=/x\nROTATED=/a b\n"),
        Err(IntakeError::RelativeRotated { line: 3, .. })
    ));
    assert!(matches!(one(""), Err(IntakeError::Nothing)));
    assert!(matches!(
        one("[a]\nSOURCE=/x\nFLUSH_AGE=soon\n"),
        Err(IntakeError::BadDuration { line: 3, .. })
    ));
}

#[test]
fn the_smallest_useful_declaration_is_a_source() {
    let set = one("[app]\nSOURCE=/var/log/app.log\n").unwrap();
    let e = &set.entries[0];
    assert_eq!(e.store_dir, "/var/log/timberfs");
    assert_eq!(e.dest(), "/var/log/timberfs/app/app.log");
    assert!(e.declare.is_empty());
    assert!(e.rotated.is_empty());
    assert_eq!(
        (e.poll_ms, e.flush_age_ms),
        (DEFAULT_POLL_MS, DEFAULT_FLUSH_AGE_MS)
    );
}

#[test]
fn a_host_wide_set_is_just_a_longer_list() {
    let set = parse(
        "host",
        "[exim-main]\nSOURCE=/var/log/exim4/mainlog\nDECLARE=retain=90d\n\
         [apache-access]\nSOURCE=/var/log/apache2/access.log\nDECLARE=retain=30d\n\
         [syslog]\nSOURCE=/var/log/syslog\nSTORE_DIR=/srv/other\n",
    )
    .unwrap();
    assert_eq!(set.entries.len(), 3);
    assert_eq!(set.entries[2].store_dir, "/srv/other");
    let dirs: Vec<_> = set
        .entries
        .iter()
        .filter_map(|e| std::path::Path::new(&e.source).parent())
        .collect();
    assert_eq!(dirs.len(), 3);
    assert!(dirs.iter().collect::<std::collections::BTreeSet<_>>().len() == 3);
}

#[test]
fn comments_and_blank_lines_are_not_declarations() {
    let set = one("# a set\n\n  # indented\n[a]\n\nSOURCE=/x\n").unwrap();
    assert_eq!(set.entries.len(), 1);
    assert_eq!(set.entries[0].source, "/x");
}

#[test]
fn the_first_tail_to_end_decides_for_the_set() {
    let mut run = SetRun::new();
    assert_eq!(run.tail_ended("a", None, true), TailAction::Nothing);
    assert_eq!(run.end("exim", false), SetEnd::Done);
    assert_eq!(run.tail_ended("b", Some("disk full"), false), TailAction::ReportAndStop);
    assert_eq!(run.tail_ended("c", None, false), TailAction::Nothing);
    match run.end("exim", false) {
        SetEnd::Failed(m) => assert!(m.contains("[b]") && m.contains("disk full"), "{m}"),
        other => panic!("{other:?}"),
    }
    assert_eq!(run.end("exim", true), SetEnd::Upgraded);
    let mut alone = SetRun::new();
    assert_eq!(alone.tail_ended("a", None, false), TailAction::Stop);
}

#[test]
fn a_checked_set_shows_where_each_file_goes() {
    let set = one("[app]\nSOURCE=/var/log/app.log\nDECLARE=retain=9d\n").unwrap();
    assert_eq!(
        check_line(&set.entries[0]),
        "app\t/var/log/app.log\t/var/log/timberfs/app/app.log"
    );
    assert_eq!(converge_sets(&set.entries[0], "web01"), ["host=web01", "retain=9d"]);
}
