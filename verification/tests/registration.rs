use timberfs::cursor::Standing;
use timberfs::declaration::Declaration;
use timberfs::follower::{Covered, Liveness, Matched, Note, Places, Positions, Registered};
use timberfs::json::Fields;
use timberfs::registration::{
    anchored_selection, check_update, create_step, delete_live, delete_step, followed_store,
    leaving_stores, named_store, new_declaration, nothing_runs_it, parse_setting, place_to_look,
    registered_notes, release_notes, report_coverage, report_membership_change, update_end,
    update_step, updated, Change, CreateError, CreateOpts, DeleteError, Selecting, Setting,
    UpdateEnd, UpdateError,
};
use timberfs::registry_view::{columns, row_cells, status_lines, to_json, Shown, StatusFacts};

fn opts() -> CreateOpts {
    CreateOpts {
        select: Some("[]".into()),
        store: None,
        retaining: true,
        follow_from: None,
        enable: false,
        start: false,
        dry_run: false,
        command: vec!["sh".into(), "-c".into()],
    }
}

fn covered(id: &str, read: bool, behind: u64) -> Covered {
    Covered {
        id: id.into(),
        path: format!("/d/{id}.log"),
        standing: Some(Standing {
            consumed_chunks: 1,
            behind_chunks: 2,
            behind_bytes: behind,
            behind_ms: 5,
            gap_chunks: None,
        }),
        read,
        note: None,
    }
}

fn registered(retaining: bool, stores: Vec<Covered>) -> Registered {
    Registered {
        decl: Declaration {
            name: "central".into(),
            select: "[a=b]".into(),
            retaining,
            command: vec!["sh".into()],
            follow_from: None,
            look_in: vec!["/x".into()],
            created: "then".into(),
            extra: Fields::new(),
        },
        places: Places::Held(Positions::new("sh")),
        live: Liveness::Running,
        covered: stores,
    }
}

fn matched(id: &str) -> Matched {
    Matched {
        id: Some(id.into()),
        dir: "/d".into(),
        name: format!("{id}.log"),
        handle: id.into(),
        records: None,
    }
}

fn names(v: &[&str]) -> Vec<String> {
    v.iter().map(|s| s.to_string()).collect()
}

#[test]
fn a_registration_is_refused_before_anything_is_looked_at() {
    let step = |name: &str, o: &CreateOpts, taken: bool| create_step(name, o, "/reg/x", taken);
    assert!(matches!(step("a/b", &opts(), false), Err(CreateError::Name(_))));
    let none = CreateOpts { command: vec![], ..opts() };
    assert!(matches!(step("x", &none, false), Err(CreateError::NoConsumer)));
    assert!(matches!(step("x", &opts(), true), Err(CreateError::Exists { .. })));
    let both = CreateOpts { store: Some("s".into()), ..opts() };
    assert!(matches!(step("x", &both, false), Err(CreateError::TwoSelections)));
    let neither = CreateOpts { select: None, ..opts() };
    assert!(matches!(step("x", &neither, false), Err(CreateError::NoSelection)));
    assert_eq!(step("x", &opts(), false), Ok(Selecting::Predicate("[]".into())));
    let one = CreateOpts { select: None, store: Some("s".into()), ..opts() };
    assert_eq!(step("x", &one, false), Ok(Selecting::Store("s".into())));
    let taken = step("x", &opts(), true).unwrap_err().message();
    assert!(taken.starts_with("follower x already exists (/reg/x)"), "{taken}");
}

#[test]
fn a_named_store_is_recorded_by_identity() {
    assert!(named_store("a.log", "/d", true).is_ok());
    assert!(matches!(named_store("a.log", "/d", false), Err(CreateError::NoStore { .. })));
    assert_eq!(anchored_selection("abc", "/d/a").unwrap(), "[id=abc]");
    assert!(matches!(
        anchored_selection("path:/d/a", "/d/a"),
        Err(CreateError::NoIdentity { .. })
    ));
    assert_eq!(place_to_look("/d", false), ["/d"]);
    assert!(place_to_look("/d", true).is_empty());
    let d = new_declaration("x", &opts(), "[id=abc]", &names(&["/d"]), "now");
    assert_eq!((d.name.as_str(), d.created.as_str()), ("x", "now"));
    assert_eq!(d.look_in, ["/d"]);
    assert!(d.retaining);
}

#[test]
fn what_a_selection_covers_is_said() {
    let d = new_declaration("x", &opts(), "[]", &vec![], "now");
    let said = report_coverage(&d, &vec![], &vec![]);
    assert_eq!(said.len(), 1);
    assert!(said[0].contains("matches no store with an identity yet"), "{said:?}");
    let seven = names(&["a", "b", "c", "d", "e", "f", "g"]);
    let said = report_coverage(&d, &seven, &names(&["p"]));
    assert_eq!(said[0], "timberfs: retaining 7 store(s): a, b, c, d, e, f, …");
    assert_eq!(
        said[1],
        "timberfs: 1 matched store(s) carry no identity, so they are NOT followed: p (`timberfs identity <store> --mint` gives one)"
    );
    let all = registered_notes(&d, &names(&["a"]), &vec![]);
    assert_eq!(all[0], "timberfs: registered follower x on [] (1 store(s) now)");
    assert!(all.last().unwrap().contains("systemctl start timberfs-follower@x.service"));
    assert!(nothing_runs_it("x").contains("timberfs-follower@x.service"));
}

#[test]
fn a_setting_is_one_of_the_keys_that_can_be_set() {
    assert_eq!(parse_setting(" retaining = true "), Ok(Setting::Retaining(true)));
    assert_eq!(parse_setting("retaining=false"), Ok(Setting::Retaining(false)));
    assert_eq!(parse_setting("retaining=1"), Err(UpdateError::NotABool));
    assert_eq!(parse_setting("select=[a=b]"), Ok(Setting::Select("[a=b]".into())));
    assert_eq!(parse_setting("store=/d/x"), Ok(Setting::Store("/d/x".into())));
    assert_eq!(parse_setting("follow_from=begin"), Ok(Setting::FollowFrom("begin".into())));
    assert_eq!(parse_setting("name=x"), Err(UpdateError::Identity("name".into())));
    assert_eq!(parse_setting("endpoint=x"), Err(UpdateError::UnknownKey("endpoint".into())));
    assert_eq!(parse_setting("oops"), Err(UpdateError::NotAPair("oops".into())));
    assert_eq!(check_update(0, 0, false), Err(UpdateError::NothingToDo));
    assert!(check_update(0, 1, false).is_ok());
    assert_eq!(
        UpdateError::Identity("name".into()).message(),
        "\"name\" is identity, not configuration — it is not settable"
    );
}

#[test]
fn an_update_changes_what_it_says_and_nothing_else() {
    let r = registered(true, vec![]);
    let changes = vec![
        Change::Retaining(false),
        Change::Select("[c=d]".into()),
        Change::FollowFrom("begin".into()),
    ];
    let mut d = r.decl.copy();
    for c in changes {
        assert!(update_step(&mut d, c, None, &Places::Never, "/p").is_none());
    }
    let d = updated(&d, &names(&[" follow_from "]), Some(names(&["cat"]))).unwrap();
    assert!(!d.retaining);
    assert_eq!(d.select, "[c=d]");
    assert!(d.look_in.is_empty(), "a place to look belonged to the store");
    assert_eq!(d.follow_from, None);
    assert_eq!(d.command, ["cat"]);
    assert_eq!((d.name.as_str(), d.created.as_str()), ("central", "then"));
    let moved = Change::Store {
        anchor: "abc".into(),
        look_in: names(&["/y"]),
    };
    let mut d = r.decl.copy();
    update_step(&mut d, moved, None, &Places::Never, "/p");
    let d = updated(&d, &vec![], None).unwrap();
    assert_eq!((d.select.as_str(), d.look_in.len()), ("[id=abc]", 1));
    assert!(matches!(
        updated(&r.decl, &names(&["select"]), None),
        Err(UpdateError::CannotUnset(_))
    ));
    assert!(matches!(
        updated(&r.decl, &vec![], Some(vec![])),
        Err(UpdateError::NoConsumer)
    ));
}

#[test]
fn an_update_ends_in_a_write_only_where_something_changed() {
    let r = registered(true, vec![]);
    assert!(matches!(update_end(&r, &r.decl.copy(), false), UpdateEnd::Unchanged(_)));
    let mut d = r.decl.copy();
    d.retaining = false;
    assert_eq!(update_end(&r, &d, true), UpdateEnd::DryRun);
    match update_end(&r, &d, false) {
        UpdateEnd::Write(Some(s)) => assert!(s.contains("OLD declaration"), "{s}"),
        other => panic!("{other:?}"),
    }
    let stopped = Registered { live: Liveness::Stopped, ..r };
    assert_eq!(update_end(&stopped, &d, false), UpdateEnd::Write(None));
}

#[test]
fn letting_go_of_a_head_is_quantified() {
    let r = registered(true, vec![covered("a", true, 7), covered("b", false, 0)]);
    let mut d = r.decl.copy();
    assert!(release_notes(&r, &d, "7 B").is_empty());
    d.retaining = false;
    let said = release_notes(&r, &d, "7 B");
    assert_eq!(
        said[0],
        "timberfs: central releases the head of 2 store(s) — 7 B it alone was holding becomes droppable, including 1 it had never read at all"
    );
    assert!(said[1].contains("does not undo"));
    let idle = registered(true, vec![covered("a", true, 0)]);
    assert!(release_notes(&idle, &d, "0 B")[0].contains("it was holding nothing"));
}

#[test]
fn a_changed_selection_says_who_comes_and_who_goes() {
    let r = registered(true, vec![covered("a", true, 7), covered("b", false, 3)]);
    let d = r.decl.copy();
    let same = report_membership_change(&r, &d, &vec![matched("a"), matched("b")], "");
    assert_eq!(same, ["timberfs: central still covers the same 2 store(s)"]);
    let after = vec![matched("a"), matched("c")];
    let gone = leaving_stores(&r, &after);
    assert_eq!((gone.unread, gone.behind), (1, 3));
    let said = report_membership_change(&r, &d, &after, "3 B");
    assert_eq!(
        said[0],
        "timberfs: central now also covers 1 store(s): c — and holds each of them whole until it has read it"
    );
    assert_eq!(said[1], "timberfs: central no longer covers 1 store(s): b");
    assert_eq!(
        said[2],
        "timberfs: that releases their heads — 3 B it was holding becomes droppable, including 1 it had never read at all"
    );
    assert_eq!(said.len(), 4);
}

#[test]
fn a_follower_that_is_pointed_elsewhere_keeps_its_places() {
    let r = registered(false, vec![]);
    let point = |followed: Option<&str>, places: &Places| {
        let mut d = r.decl.copy();
        let to = Change::Store {
            anchor: "new".into(),
            look_in: vec![],
        };
        let said = update_step(&mut d, to, followed, places, "/p");
        assert_eq!(d.select, "[id=new]");
        said
    };
    let mut p = Positions::new("sh");
    assert!(point(Some("old"), &Places::Held(p.clone())).is_none(), "it has no place");
    p.advance("old", "/d/old", 1, None, 0, 0);
    let held = Places::Held(p);
    assert!(point(Some("new"), &held).is_none(), "it is where it was");
    assert_eq!(
        point(Some("old"), &held).unwrap(),
        "timberfs: central keeps its place in the store(s) it used to follow, in /p — the new one is read from the start, and a stale entry there holds nothing (membership is the selection's, never the file's)"
    );
    assert!(point(None, &held).is_some());
    let mut d = r.decl.copy();
    let other = Change::Select("[a=b]".into());
    assert!(update_step(&mut d, other, Some("old"), &held, "/p").is_none());

    assert!(followed_store("a.log", "/d", true).is_ok());
    assert_eq!(
        followed_store("a.log", "/d", false).unwrap_err().message(),
        "no timberfs store a.log in /d — a follower is a position in a store that exists"
    );
    assert_eq!(
        named_store("a.log", "/d", false).unwrap_err().message(),
        "no timberfs store a.log in /d — a follower follows stores that exist"
    );
}

#[test]
fn a_follower_is_not_deleted_while_it_holds_or_runs() {
    let r = registered(true, vec![covered("a", true, 0)]);
    assert!(matches!(
        delete_step("central", "/reg", true, Some(&r)),
        Err(DeleteError::Retaining { .. })
    ));
    assert!(matches!(
        delete_step("central", "/reg", false, None),
        Err(DeleteError::NoFollower { .. })
    ));
    assert!(matches!(delete_step("-x", "/reg", true, None), Err(DeleteError::Name(_))));
    assert!(delete_step("central", "/reg", true, None).is_ok(), "a ghost is removable");
    let idle = registered(true, vec![]);
    assert!(delete_step("central", "/reg", true, Some(&idle)).is_ok(), "its stores are gone");
    let running = delete_live("central", "/reg", Liveness::Running, Some("pid 4".into()));
    let said = running.unwrap_err().message();
    assert!(said.starts_with("central is running (pid 4) — deleting"), "{said}");
    let unknown = delete_live("central", "/reg", Liveness::Unknown, None).unwrap_err();
    assert!(unknown.message().contains("/reg/central/follower.lock"));
    assert!(delete_live("central", "/reg", Liveness::Stopped, None).is_ok());
}

#[test]
fn a_follower_is_shown_in_a_row_and_as_an_object() {
    assert_eq!(columns(), ["NAME", "FOLLOWS", "STORES", "RETAINING", "LAG", "RUNNING"]);
    let r = registered(true, vec![covered("a", true, 7)]);
    assert_eq!(row_cells(&r, "5 ms"), ["central", "a", "1", "yes", "5 ms behind", "yes"]);
    let o = to_json(&r, "5 ms", &vec![]).compact();
    let v: serde_json::Value = serde_json::from_str(&o).unwrap();
    assert_eq!(v["unit"], "timberfs-follower@central.service");
    assert_eq!(v["running"], true);
    assert_eq!(v["stores"][0]["behind_bytes"], 7);
    assert!(v["stores"][0]["gap_chunks"].is_null());
    assert!(v["stores"][0]["note"].is_null());
    assert_eq!(v["positions"], "held");
    assert_eq!(v["uncovered"].as_array().unwrap().len(), 0);
}

#[test]
fn a_page_shows_where_a_follower_stands() {
    let mut one = covered("a", true, 7);
    one.note = Some(Note {
        text: "collector down".into(),
        offset: Some(44),
        when: "now".into(),
    });
    let mut gap = covered("b", true, 9);
    gap.standing.as_mut().unwrap().gap_chunks = Some(3);
    let mut p = Positions::new("sh");
    p.advance("z", "/d/z.log", 1, None, 0, 0);
    p.note = Some(Note {
        text: "starting".into(),
        offset: None,
        when: "today".into(),
    });
    let r = Registered {
        places: Places::Held(p),
        ..registered(true, vec![one, gap, covered("c", false, 0)])
    };
    let shown = |s: &str| Shown {
        distance: s.into(),
        unread: "7 B".into(),
    };
    let facts = StatusFacts {
        honouring: 1,
        shown: vec![shown("5 ms"), shown("6 ms"), shown("")],
        on_disk: vec![],
        holder: Some("pid=4".into()),
    };
    let page = status_lines(&r, "/reg", &facts);
    let pad = " ".repeat(24);
    assert_eq!(
        page,
        [
            "follower  central".to_string(),
            "follows   [a=b]".to_string(),
            "command   sh".to_string(),
            "retaining yes — honoured by 1 of 3 covered store(s); the rest do not declare retain_unconsumed".to_string(),
            "stores    3".to_string(),
            format!("  {:<24} 5 ms behind", "a"),
            format!("  {pad} 7 B unread in 2 chunk(s)"),
            format!("  {pad} note: collector down"),
            format!("  {pad}   at offset 44 of a"),
            format!("  {:<24} GAP", "b"),
            format!("  {pad} GAP — 3 chunk(s) were dropped before it read them; it resumes at the oldest one still here"),
            format!("  {:<24} never read", "c"),
            format!("  {pad} 7 B unread in 2 chunk(s)"),
            "places    1 more, for store(s) this no longer covers — 1 of them no longer on disk at all".to_string(),
            "          each keeps its place, so a store that comes back into the selection resumes rather than re-ships; nothing prunes them".to_string(),
            "note      starting (today)".to_string(),
            "running   yes (pid=4)".to_string(),
            "unit      timberfs-follower@central.service".to_string(),
        ]
    );
}
