use timberfs::bark::Retention;
use timberfs::cursor::{consumed_prefix, Cursor, Standing};
use timberfs::declaration::{
    parse_declaration, stated_selection, Declaration, DeclarationError, PickUp,
};
use timberfs::follower::{
    cover, covering, cursor_path, decl_path, follower_dir, follower_name_message, liveness,
    lock_path, migrate_cursor, places_of, positions_path, read_all, recorded_pid, registry_dir,
    unit_name, validate_name, Broken, Covered, CursorFile, Liveness, LockProbe, Matched, Note,
    Places, Positions, PositionsFile, Registered, DEFAULT_REGISTRY,
};
use timberfs::format::ChunkRecord;
use timberfs::interest::{
    override_record, positions_of, FoundFollower, Interest, InterestIndex, Recorded, RegistryEntry,
    RotateStats, Scan, StoreChunk, TickInterest,
};
use timberfs::json::{Fields, Json};

fn decl(name: &str, retaining: bool) -> Declaration {
    Declaration {
        name: name.to_string(),
        select: "[id=store-id]".into(),
        retaining,
        command: vec![
            "timber-otlp".into(),
            "--endpoint".into(),
            "http://127.0.0.1:4318".into(),
        ],
        follow_from: None,
        look_in: Vec::new(),
        created: "2026-08-21T00:00:00Z".into(),
        extra: Fields::new(),
    }
}

/// Reads a declaration as it stands in the directory of `name`.
fn load(content: &str, name: &str) -> Result<Declaration, DeclarationError> {
    let map = parse_declaration(content, "follower.json")?;
    let select = stated_selection(&map, "follower.json", name)?;
    Declaration::load(&map, "follower.json", name, &select)
}

#[test]
fn a_name_is_a_directory_a_unit_and_an_argument() {
    for ok in ["central", "otlp-1", "a.b_c", "X9"] {
        validate_name(ok)
            .unwrap_or_else(|e| panic!("{ok} should be legal: {}", follower_name_message(&e)));
    }
    for bad in ["", "a/b", "a b", "a@b", "..", "-x", "æ"] {
        assert!(validate_name(bad).is_err(), "{bad:?} should be refused");
    }
    assert!(validate_name(&"x".repeat(65)).is_err());
}

#[test]
fn a_declaration_roundtrips_and_keeps_keys_it_does_not_know() {
    let mut d = decl("central", true);
    d.extra.insert("note", Json::Text("mine".into()));
    let text = d.to_map().compact();
    let back = load(&text, "central").unwrap();
    assert!(back.equals(&d));
    assert!(text.contains("\"note\":\"mine\""), "{text}");
}

#[test]
fn a_copied_registry_directory_is_refused() {
    let text = decl("central", true).to_map().compact();
    let err = load(&text, "clone").unwrap_err().message();
    assert!(err.contains("copied registry directory"), "{err}");
}

#[test]
fn a_declaration_must_name_a_selection_and_a_consumer() {
    let said = |text: &str| load(text, "x").unwrap_err().message();
    assert!(said(r#"{"type":"otlp"}"#).contains("no \"select\""));
    let err = said(r#"{"store":"x"}"#);
    assert!(err.contains("command"), "{err}");
    assert!(load("not json", "x").is_err());
    assert!(matches!(
        load(r#"{"select":"[]","command":"sh"}"#, "x"),
        Err(DeclarationError::NotAList { .. })
    ));
    assert!(matches!(
        load(r#"{"select":"[]","command":["sh",1]}"#, "x"),
        Err(DeclarationError::NotText { .. })
    ));
    assert!(matches!(load("[]", "x"), Err(DeclarationError::NotAnObject { .. })));
}

#[test]
fn a_store_outside_every_forest_is_still_reachable() {
    let mut outside = decl("out", false);
    outside.look_in = vec!["/root/backing".into(), "/forest/".into()];
    let swept = vec!["/forest".to_string(), "/other".to_string()];
    let with = outside.sweeps(&swept);
    for d in &swept {
        assert!(with.contains(d), "{d} was dropped from the sweep");
    }
    assert!(with.contains(&"/root/backing".to_string()));
    assert_eq!(with.len(), 3, "a forest is not swept twice");

    let inside = decl("in", false);
    assert_eq!(inside.sweeps(&swept), swept);
    assert!(!inside.to_map().contains_key("look_in"));
}

#[test]
fn a_type_is_refused_by_name_and_never_migrated() {
    for (name, body) in [
        (
            "otlp",
            r#"{"store":"id-a","type":"otlp","endpoint":"http://c:4318"}"#,
        ),
        (
            "repl",
            r#"{"store":"id-b","type":"frames","endpoint":"archive:4319"}"#,
        ),
        ("kafka", r#"{"store":"id-c","type":"kafka"}"#),
    ] {
        let err = load(body, name).unwrap_err().message();
        assert!(err.contains("type"), "{name}: {err}");
        assert!(
            err.contains("follower update"),
            "{name}: it should name the fix: {err}"
        );
    }
}

#[test]
fn a_declaration_with_no_command_is_refused() {
    let err = load(r#"{"select":"[]"}"#, "empty").unwrap_err().message();
    assert!(err.contains("command"), "{err}");
}

#[test]
fn a_command_round_trips_as_a_list() {
    let mut d = decl("central", false);
    d.command = vec![
        "ssh".into(),
        "archive01".into(),
        "my-consumer --flag 'a b'".into(),
    ];
    let back = load(&d.to_map().compact(), "central").unwrap();
    assert_eq!(back.command, d.command);
}

#[test]
fn what_is_not_declared_follows_from_retaining() {
    let mut d = decl("central", true);
    assert_eq!(d.picks_up(), PickUp::Begin);
    d.retaining = false;
    assert_eq!(d.picks_up(), PickUp::Discovery);
    d.follow_from = Some("begin".into());
    assert_eq!(d.picks_up(), PickUp::Declared("begin".into()));
    let back = load(&d.to_map().compact(), "central").unwrap();
    assert_eq!(back.follow_from.as_deref(), Some("begin"));
}

#[test]
fn read_all_reports_a_broken_declaration_rather_than_hiding_it() {
    let held = read_all(vec![
        Err(Broken {
            name: "bad".into(),
            why: "not JSON".into(),
        }),
        Ok(covering_one("good", false, true, 0)),
    ]);
    assert_eq!(held.followers.len(), 1);
    assert_eq!(held.followers[0].name(), "good");
    assert_eq!(held.broken.len(), 1);
    assert_eq!(held.broken[0].name, "bad");
}

#[test]
fn a_missing_registry_is_empty_not_an_error() {
    let empty = read_all(Vec::new());
    assert!(empty.followers.is_empty());
    assert!(empty.broken.is_empty());
}

#[test]
fn for_store_filters_by_identity_and_ranks_the_worst_first() {
    let held = vec![
        covering_one("behind", true, true, 5),
        covering_one("ahead", true, true, 5),
        covering_one("elsewhere", true, true, 9),
    ];
    let mine = covering(held.clone(), &vec![true, true, false]);
    let names: Vec<&str> = mine.iter().map(|r| r.name()).collect();
    assert_eq!(names, ["ahead", "behind"]);
    assert!(covering(held, &vec![false, false, false]).is_empty());
}

#[test]
fn liveness_comes_from_the_lock_and_survives_a_cursor_rewrite() {
    assert_eq!(liveness(LockProbe::Absent, None, false), Liveness::Stopped);
    let pid = recorded_pid("follower central pid=4321\n");
    assert_eq!(pid, Some(4321));
    assert_eq!(liveness(LockProbe::Held, pid, true), Liveness::Running);
    assert_eq!(liveness(LockProbe::Free, pid, true), Liveness::Stopped);
    assert_eq!(liveness(LockProbe::Unreadable, pid, true), Liveness::Unknown);
    assert_eq!(Liveness::Running.text(), "yes");
    assert_eq!(Liveness::Stopped.word(), "stopped");
    assert_eq!(Liveness::Unknown.text(), "?");
}

#[test]
fn an_inherited_lock_is_not_a_running_follower() {
    let pid = recorded_pid("follower central pid=4294967295\n");
    assert_eq!(pid, Some(4294967295));
    assert_eq!(liveness(LockProbe::Held, pid, false), Liveness::Stopped);
    let pid = recorded_pid("\n");
    assert_eq!(pid, None);
    assert_eq!(liveness(LockProbe::Held, pid, false), Liveness::Unknown);
    assert_eq!(recorded_pid("pid=1 pid= 22 \nmore"), Some(22));
    assert_eq!(recorded_pid("pid=4294967296"), None);
    assert_eq!(recorded_pid(""), None);
}

fn covering_one(name: &str, retaining: bool, read: bool, behind: u64) -> Registered {
    let mut d = decl(name, retaining);
    d.select = "[id=id]".into();
    Registered {
        decl: d,
        places: if read {
            Places::Held(Positions::new(name))
        } else {
            Places::Never
        },
        live: Liveness::Stopped,
        covered: vec![Covered {
            id: "id".into(),
            path: "/var/log/timberfs/app/app.log".into(),
            standing: Some(Standing {
                consumed_chunks: 0,
                behind_chunks: 1,
                behind_bytes: behind,
                behind_ms: 0,
                gap_chunks: None,
            }),
            read,
            note: None,
        }],
    }
}

#[test]
fn a_store_never_read_is_not_reported_as_decades_behind() {
    let mixed = Registered {
        decl: decl("central", true),
        places: Places::Held(Positions::new("c")),
        live: Liveness::Stopped,
        covered: vec![
            covering_one("x", true, false, 76).covered.remove(0),
            covering_one("y", true, true, 0).covered.remove(0),
        ],
    };
    let text = mixed.lag_text("20698d");
    assert_eq!(text, "1 of 2 never read");
    assert!(
        !text.contains("behind"),
        "a distance measured from a zero clock: {text}"
    );
}

#[test]
fn a_retaining_follower_that_never_read_a_store_outranks_every_backlog() {
    let both = vec![
        covering_one("behind", true, true, 9_000_000),
        covering_one("fresh", true, false, 0),
    ];
    let both = covering(both, &vec![true, true]);
    assert_eq!(
        both.iter().map(|r| r.name()).collect::<Vec<_>>(),
        ["fresh", "behind"]
    );
    assert!(both[0].holds_everything());
    assert!(!both[1].holds_everything());

    let mut empty = covering_one("idle", true, false, 0);
    empty.covered.clear();
    assert!(!empty.holds_everything());
    assert_eq!(empty.lag_text(""), "matches nothing");
}

#[test]
fn a_selection_that_matches_nothing_says_so_rather_than_never_run() {
    let places = places_of(PositionsFile::Missing, Some("store-id"), CursorFile::Missing);
    assert!(
        matches!(places, Places::Never),
        "no positions file is NEVER RUN, which is not the same as unreadable"
    );
    let r = Registered {
        decl: decl("central", true),
        covered: cover(&Vec::new(), &places),
        places,
        live: Liveness::Stopped,
    };
    assert_eq!(r.lag_text(""), "matches nothing");
    assert!(r.covered.is_empty());
    assert!(!r.holds_everything());
    let blind = Registered {
        places: Places::Unreadable,
        ..r
    };
    assert_eq!(blind.lag_text(""), "positions unreadable");
}

#[test]
fn every_recorded_place_is_accounted_for_not_just_the_covered_ones() {
    let mut held = Positions::new("c");
    held.advance("kept-and-here", "/live/a.log", 10, Some(0), 1, 1);
    held.advance("kept-but-gone", "/nonexistent/b.log", 20, Some(0), 1, 1);
    held.advance("covered", "/wherever/c.log", 30, Some(0), 1, 1);
    let r = Registered {
        decl: decl("f", false),
        places: Places::Held(held),
        live: Liveness::Stopped,
        covered: vec![Covered {
            id: "covered".into(),
            path: "/wherever/c.log".into(),
            standing: None,
            read: true,
            note: None,
        }],
    };
    let on_disk = vec!["kept-and-here".to_string(), "covered".to_string()];
    let mut unc: Vec<(String, bool)> = r
        .uncovered(&on_disk)
        .into_iter()
        .map(|u| (u.id, u.on_disk))
        .collect();
    unc.sort();
    assert_eq!(
        unc,
        vec![
            ("kept-and-here".to_string(), true),
            ("kept-but-gone".to_string(), false)
        ],
        "the covered store must not be listed, and the pair decides on_disk"
    );
    let blind = Registered {
        places: Places::Unreadable,
        ..r
    };
    assert!(blind.uncovered(&on_disk).is_empty());
}

fn retaining(name: &str, store: &str, at: Option<u64>) -> RegistryEntry {
    let mut d = decl(name, true);
    d.select = format!("[id={store}]");
    let recorded = match at {
        Some(seq) => Recorded::Cursor(Some(seq)),
        None => Recorded::Nothing,
    };
    RegistryEntry::Directory(FoundFollower {
        name: name.into(),
        declaration: Some(d),
        selectable: true,
        at: positions_of(recorded, Some(store)),
    })
}

/// Asks about a store of one identity, whose followers select by it.
fn held_for(index: &InterestIndex, id: &str, next_seq: u64) -> Interest {
    let covers: Vec<bool> = index
        .selections()
        .iter()
        .map(|s| *s == format!("[id={id}]"))
        .collect();
    index.for_store(&covers, Some(id), next_seq)
}

fn three() -> Vec<ChunkRecord> {
    (0..3)
        .map(|i| ChunkRecord {
            uncomp_start: i * 10,
            uncomp_len: 10,
            comp_start: i * 10,
            comp_len: 10,
            first_write_ms: 100 + i * 100,
            last_write_ms: 200 + i * 100,
            seq: i,
        })
        .collect()
}

#[test]
fn the_floor_is_the_minimum_over_retaining_followers() {
    let tap = RegistryEntry::Directory(FoundFollower {
        name: "tap".into(),
        declaration: Some(decl("tap", false)),
        selectable: true,
        at: positions_of(Recorded::Cursor(Some(0)), Some("id")),
    });
    let index = InterestIndex::read(Scan::Entries(vec![
        retaining("ahead", "id", Some(9)),
        retaining("behind", "id", Some(4)),
        tap,
    ]));
    let held = held_for(&index, "id", 100);
    assert_eq!(held.floor, Some(4));
    assert_eq!(held.holder.as_deref(), Some("behind"));
    assert_eq!(held.retaining, 2, "the tap is not one of them");
}

#[test]
fn a_follower_that_never_ran_holds_everything_and_is_named() {
    let index = InterestIndex::read(Scan::Entries(vec![
        retaining("ahead", "id", Some(9)),
        retaining("fresh", "id", None),
    ]));
    let held = held_for(&index, "id", 100);
    assert_eq!(held.floor, None, "one of them holds everything");
    assert_eq!(held.holder.as_deref(), Some("fresh"));
    assert_eq!(held.holder_at, None);
    assert_eq!(held.droppable(&three()), 0);
}

#[test]
fn a_position_past_everything_written_is_impossible_not_merely_odd() {
    let index = InterestIndex::read(Scan::Entries(vec![retaining("bogus", "id", Some(500))]));
    let held = held_for(&index, "id", 10);
    assert_eq!(held.floor, None);
    assert_eq!(held.holder.as_deref(), Some("bogus"));
    assert_eq!(held.holder_at, Some(500));
    assert_eq!(held_for(&index, "id", 501).floor, Some(500));
}

#[test]
fn every_way_of_not_knowing_drops_nothing() {
    let absent = InterestIndex::read(Scan::Missing);
    assert_eq!(held_for(&absent, "id", 100).floor, None);

    let elsewhere = retaining("elsewhere", "other-store", Some(3));
    let index = InterestIndex::read(Scan::Entries(vec![elsewhere.clone()]));
    let held = held_for(&index, "id", 100);
    assert_eq!(held.floor, None);
    assert_eq!(held.holder, None, "nobody to name, so no loss record");

    let torn = |declaration: Option<Declaration>| {
        RegistryEntry::Directory(FoundFollower {
            name: "torn".into(),
            declaration,
            selectable: true,
            at: positions_of(Recorded::CursorUnreadable, Some("id")),
        })
    };
    for entry in [
        torn(Some(decl("torn", true))),
        torn(None),
        RegistryEntry::Unlisted,
        RegistryEntry::Nameless,
    ] {
        let broken = InterestIndex::read(Scan::Entries(vec![elsewhere.clone(), entry]));
        for id in ["id", "other-store"] {
            let held = held_for(&broken, id, 100);
            assert_eq!(held.floor, None);
            assert!(held.blind);
        }
    }
    assert!(held_for(&InterestIndex::read(Scan::Unreadable), "id", 100).blind);
    let stray = InterestIndex::read(Scan::Entries(vec![
        RegistryEntry::NotADirectory,
        RegistryEntry::Directory(FoundFollower {
            name: "not a name".into(),
            declaration: None,
            selectable: false,
            at: None,
        }),
    ]));
    assert!(!held_for(&stray, "id", 100).blind, "not a follower at all");
}

#[test]
fn a_registry_that_cannot_be_read_says_so_rather_than_nothing_retains_this() {
    let blind = InterestIndex::closed().for_store(&vec![], Some("store-id"), 10);
    assert!(blind.blind, "a closed index is blind, not empty");
    assert_eq!(blind.floor, None, "and it still holds everything back");
    assert_eq!(blind.holder, None, "with nobody to name");

    let seeing = InterestIndex::read(Scan::Missing).for_store(&vec![], Some("store-id"), 10);
    assert!(!seeing.blind);
    assert_eq!(seeing.floor, None);
}

#[test]
fn the_axis_is_not_consulted_unless_the_store_declares_it() {
    let mut tick = TickInterest::default();
    let off = Retention {
        max_comp_bytes: Some(1024),
        ..Default::default()
    };
    assert!(!tick.wants_registry(&off), "nothing declared it, so nothing read");
    assert_eq!(tick.floor(&off, &vec![], Some("id"), 100), Interest::default());

    let on = Retention {
        max_comp_bytes: Some(1024),
        unconsumed: true,
        ..Default::default()
    };
    assert!(tick.wants_registry(&on));
    assert!(tick.floor(&on, &vec![], Some("id"), 100).blind, "not read yet");
    tick.take(InterestIndex::read(Scan::Missing));
    assert!(!tick.wants_registry(&on), "declared, so read once");
    assert!(!tick.floor(&on, &vec![], Some("id"), 100).blind);
}

#[test]
fn a_selection_holds_every_store_it_covers_at_its_own_position() {
    let mut d = decl("central", true);
    d.select = "[service=apache]".into();
    let index = InterestIndex::read(Scan::Entries(vec![RegistryEntry::Directory(
        FoundFollower {
            name: "central".into(),
            declaration: Some(d),
            selectable: true,
            at: positions_of(
                Recorded::Positions(vec![
                    StoreChunk {
                        id: "id-a".into(),
                        chunk: Some(7),
                    },
                    StoreChunk {
                        id: "id-b".into(),
                        chunk: Some(2),
                    },
                ]),
                None,
            ),
        },
    )]));
    let apache = |id: &str| index.for_store(&vec![true], Some(id), 100);
    assert_eq!(apache("id-a").floor, Some(7));
    assert_eq!(apache("id-b").floor, Some(2));
    let fresh = apache("id-c");
    assert_eq!(fresh.floor, None);
    assert_eq!(fresh.holder.as_deref(), Some("central"));
    let other = index.for_store(&vec![false], Some("id-d"), 100);
    assert_eq!(other.floor, None);
    assert_eq!(other.holder, None);
    assert_eq!(other.retaining, 0);
}

#[test]
fn a_legacy_declaration_reads_as_the_store_it_named() {
    let d = load(
        r#"{"store":"id-a","retaining":true,"command":["/bin/true"]}"#,
        "old",
    )
    .unwrap();
    assert_eq!(d.select, "[id=id-a]");
    assert!(d.retaining);
    let index = InterestIndex::read(Scan::Entries(vec![RegistryEntry::Directory(
        FoundFollower {
            name: "old".into(),
            declaration: Some(d),
            selectable: true,
            at: positions_of(Recorded::Cursor(Some(5)), Some("id-a")),
        },
    )]));
    assert_eq!(held_for(&index, "id-a", 100).floor, Some(5));
    assert_eq!(held_for(&index, "id-b", 100).holder, None);
}

#[test]
fn a_store_with_no_identity_holds_nothing_back() {
    let mut d = decl("central", true);
    d.select = "[]".into();
    let index = InterestIndex::read(Scan::Entries(vec![RegistryEntry::Directory(
        FoundFollower {
            name: "central".into(),
            declaration: Some(d),
            selectable: true,
            at: positions_of(Recorded::Nothing, None),
        },
    )]));
    let held = index.for_store(&vec![true], None, 100);
    assert_eq!(held.floor, None);
    assert_eq!(held.holder.as_deref(), Some("central"));
}

#[test]
fn the_loss_record_names_the_follower_and_the_exact_range() {
    let policy = Retention {
        max_comp_bytes: Some(50 * 1024),
        unconsumed: true,
        ..Default::default()
    };
    let budget = "50.0 KiB";
    let stats = |first: u64, last: u64| RotateStats {
        chunks_moved: (last - first + 1) as usize,
        uncomp_bytes: 0,
        comp_bytes: 0,
        first_write_ms: 0,
        last_write_ms: 0,
        chunks_remaining: 0,
        first_seq: first,
        last_seq: last,
    };
    let held = Interest {
        floor: Some(4200),
        holder: Some("central".into()),
        holder_at: Some(4200),
        retaining: 1,
        blind: false,
    };
    let record = override_record("app.log", &policy, budget, &stats(4000, 4830), &held).unwrap();
    assert!(
        record.contains("follower central at chunk 4200"),
        "{record}"
    );
    assert!(record.contains("dropped chunks 4200..4830"), "{record}");
    assert!(record.contains("50.0 KiB"), "{record}");

    assert!(override_record("app.log", &policy, budget, &stats(4000, 4199), &held).is_none());

    let fresh = Interest {
        floor: None,
        holder: Some("fresh".into()),
        holder_at: None,
        retaining: 1,
        blind: false,
    };
    let record = override_record("app.log", &policy, budget, &stats(0, 12), &fresh).unwrap();
    assert!(
        record.contains("follower fresh which has never run"),
        "{record}"
    );
    assert!(record.contains("dropped chunks 0..12"), "{record}");

    assert!(
        override_record("app.log", &policy, budget, &stats(0, 12), &Interest::default()).is_none()
    );
}

#[test]
fn droppable_is_the_same_prefix_a_cursor_calls_consumed() {
    let records = three();
    for seq in 0..=3u64 {
        let held = Interest {
            floor: Some(seq),
            holder: Some("c".into()),
            holder_at: Some(seq),
            retaining: 1,
            blind: false,
        };
        assert_eq!(
            held.droppable(&records),
            consumed_prefix(&records, Some(seq)),
            "interest and the cursor disagree at chunk {seq}"
        );
    }
}

#[test]
fn the_registry_lays_out_one_directory_per_follower() {
    assert_eq!(registry_dir(None), DEFAULT_REGISTRY);
    assert_eq!(registry_dir(Some("")), DEFAULT_REGISTRY);
    assert_eq!(registry_dir(Some("/tmp/reg")), "/tmp/reg");
    assert_eq!(follower_dir("/reg", "central"), "/reg/central");
    assert_eq!(unit_name("central"), "timberfs-follower@central.service");
    assert_eq!(decl_path("/reg", "central"), "/reg/central/follower.json");
    assert_eq!(positions_path("/reg", "central"), "/reg/central/positions.json");
    assert_eq!(cursor_path("/reg", "central"), "/reg/central/cursor.json");
    assert_eq!(lock_path("/reg", "central"), "/reg/central/follower.lock");
}

fn matched(id: Option<&str>, name: &str, records: Option<Vec<ChunkRecord>>) -> Matched {
    Matched {
        id: id.map(str::to_string),
        dir: "/d".into(),
        name: name.into(),
        handle: name.trim_end_matches(".log").into(),
        records,
    }
}

#[test]
fn a_follower_is_placed_in_each_store_that_it_covers() {
    let mut held = Positions::new("c");
    held.advance("a", "/d/a.log", 10, Some(2), 400, 3);
    held.notes.push(timberfs::follower::StoreNote {
        id: "b".into(),
        note: Note {
            text: "why".into(),
            offset: Some(4),
            when: "now".into(),
        },
    });
    let found = vec![
        matched(Some("a"), "a.log", Some(three())),
        matched(Some("b"), "b.log", Some(three())),
        matched(None, "c.log", Some(three())),
        matched(Some("d"), "d.log", None),
    ];
    let places = Places::Held(held);
    let covered = cover(&found, &places);
    let names: Vec<String> = covered.iter().map(|c| c.handle()).collect();
    assert_eq!(names, ["b", "d", "a"], "never read first, the largest of them ahead");
    assert_eq!(covered[0].note.as_ref().unwrap().text, "why");
    assert_eq!(covered[0].behind_bytes(), 30);
    assert_eq!(covered[1].standing, None);
    assert!(covered[2].read);
    assert_eq!(covered[2].behind_bytes(), 10);
    let r = Registered {
        decl: decl("f", true),
        places,
        live: Liveness::Running,
        covered,
    };
    assert_eq!(r.behind_bytes(), 40);
    assert_eq!(r.worst().unwrap().id, "b");
    assert_eq!(r.at("a").unwrap().path, "/d/a.log");
    assert_eq!(r.follows_text(), "[id=store-id]");
    assert_eq!(r.lag_text(""), "2 of 3 never read");
}

#[test]
fn a_cursor_is_carried_into_the_places_once() {
    let mut c = Cursor::new("otlp", "id", "/d/a.log");
    c.seq = Some(1);
    c.wl = 250;
    assert!(migrate_cursor(&c, "id", "/d/a.log", &three(), 100).is_none());
    c.delivered = 7;
    let p = migrate_cursor(&c, "id", "/d/a.log", &three(), 100).unwrap();
    assert_eq!(p.consumer, "otlp");
    let at = p.get("id").unwrap();
    assert_eq!((at.offset, at.chunk, at.wl, at.delivered), (110, Some(1), 250, 7));
    c.seq = Some(9);
    let gone = migrate_cursor(&c, "id", "/d/a.log", &three()[1..].to_vec(), 100).unwrap();
    assert_eq!(gone.get("id").unwrap().offset, 110, "its chunk is gone: the oldest left");

    match places_of(PositionsFile::Missing, Some("id"), CursorFile::Held(c.clone())) {
        Places::Held(p) => assert_eq!(p.get("id").unwrap().chunk, Some(9)),
        other => panic!("{other:?}"),
    }
    assert_eq!(
        places_of(PositionsFile::Missing, None, CursorFile::Held(c)),
        Places::Never
    );
    assert_eq!(
        places_of(PositionsFile::Missing, None, CursorFile::Unreadable),
        Places::Unreadable
    );
    assert_eq!(
        places_of(PositionsFile::Unreadable, None, CursorFile::Missing),
        Places::Unreadable
    );
}

#[test]
fn a_frames_type_is_refused_with_the_fix_named() {
    let err = load(r#"{"store":"an-id","type":"frames","endpoint":"archive:4319"}"#, "ship")
        .unwrap_err()
        .message();
    assert!(err.contains("frames"), "{err}");
    assert!(
        err.contains("follower update"),
        "it should name the fix, not just refuse: {err}"
    );
}
