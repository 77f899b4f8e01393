use timberfs::forest::{
    bare_token, handle_of, handle_of_logical, lookup_handle, resolve_source, Forest, ForestError,
    Scanned,
};
use timberfs::forests::{
    check_forest_name, declaration_text, declare_step, dir_of, forest_name_message, forest_row,
    forests_from_env, into_dir, nests_with, parse_forest_file, same_dir, DeclareError, DeclareStep,
    Declared, NameError, Nesting, Place,
};
use timberfs::json::pretty_list;
use timberfs::listing::{conf_files, cursor_files, stem_of};
use timberfs::order::in_order;

fn place(p: &str) -> Place {
    Place {
        given: p.into(),
        canonical: None,
    }
}

fn store(forest: &str, handle: &str, path: &str) -> Scanned {
    Scanned {
        forest: forest.into(),
        handle: handle.into(),
        path: path.into(),
        declared: None,
        id: None,
    }
}

fn forest(name: &str, dir: &str) -> Forest {
    Forest {
        name: name.into(),
        dir: dir.into(),
    }
}

#[test]
fn a_forest_name_becomes_a_filename_so_it_is_constrained() {
    assert!(check_forest_name("default").is_ok());
    assert!(check_forest_name("archive-2026.q3").is_ok());
    assert!(check_forest_name("").is_err());
    assert!(
        check_forest_name("..").is_err(),
        "would escape the config dir"
    );
    assert!(check_forest_name("a/b").is_err(), "would be a path");
    assert!(check_forest_name("-x").is_err(), "would read as a flag");
    assert!(check_forest_name(&"x".repeat(65)).is_err());
}

#[test]
fn every_bad_name_has_its_error() {
    assert_eq!(check_forest_name(""), Err(NameError::Empty));
    assert_eq!(check_forest_name("."), Err(NameError::Dots(".".into())));
    assert_eq!(check_forest_name("-x"), Err(NameError::LeadingDash("-x".into())));
    assert_eq!(check_forest_name("a/b"), Err(NameError::BadChar("a/b".into(), '/')));
    let long = "x".repeat(65);
    assert_eq!(check_forest_name(&long), Err(NameError::TooLong(long.clone())));
    let said = forest_name_message(&NameError::BadChar("a/b".into(), '/'));
    assert!(said.starts_with("forest name \"a/b\" contains '/'"), "{said}");
}

#[test]
fn one_directory_is_one_forest_however_it_is_spelled() {
    assert!(same_dir(&place("/srv/logs"), &place("/srv/logs/")));
    assert!(same_dir(&place("/srv/logs/"), &place("/srv/logs")));
    assert!(!same_dir(&place("/srv/logs"), &place("/srv/logs2")));
}

#[test]
fn nesting_is_refused_because_a_forest_is_scanned_one_level_deep() {
    assert_eq!(
        nests_with(&place("/srv/logs"), &place("/srv/logs/archive")).map(|n| n.phrase()),
        Some("is inside")
    );
    assert_eq!(
        nests_with(&place("/srv/logs/archive"), &place("/srv/logs")).map(|n| n.phrase()),
        Some("contains")
    );
    assert_eq!(nests_with(&place("/srv/logs"), &place("/srv/other")), None::<Nesting>);
    assert_eq!(nests_with(&place("/srv/logs"), &place("/srv/logs2")), None::<Nesting>);
}

#[test]
fn handle_of_strips_rings_then_a_single_log() {
    assert_eq!(handle_of("nginx.log.rings"), Some("nginx"));
    assert_eq!(handle_of("nginx.rings"), Some("nginx"));
    assert_eq!(handle_of("metrics.jsonl.rings"), Some("metrics.jsonl"));
    assert_eq!(handle_of("nginx.log.log.rings"), Some("nginx.log"));
    assert_eq!(handle_of("nginx.trunk"), None);
    assert_eq!(handle_of_logical("nginx.log"), "nginx");
}

#[test]
fn resolves_a_nested_store_by_handle() {
    let stores = [store("f", "nginx", "/f/nginx/nginx.log")];
    let r = resolve_source("nginx", false, &stores, &[forest("f", "/f")], "/etc").unwrap();
    assert_eq!(r, "/f/nginx/nginx.log");
}

#[test]
fn resolves_a_flat_store_by_handle() {
    let stores = [store("f", "app", "/f/app.log")];
    let r = resolve_source("app", false, &stores, &[forest("f", "/f")], "/etc").unwrap();
    assert_eq!(r, "/f/app.log");
}

#[test]
fn existing_store_path_passes_through_unchanged() {
    let r = resolve_source("/d/real.log", true, &[], &[], "/etc").unwrap();
    assert_eq!(r, "/d/real.log");
}

#[test]
fn slashed_nonexistent_path_passes_through_unchanged() {
    let r = resolve_source("some/nonexistent/store.log", false, &[], &[], "/etc").unwrap();
    assert_eq!(r, "some/nonexistent/store.log");
    assert_eq!(bare_token("nginx"), Some("nginx"));
    assert_eq!(bare_token("a/b"), None);
}

#[test]
fn a_slashed_name_never_becomes_a_handle() {
    let stores = [store("f", "nginx", "/f/nginx/nginx.log")];
    let r = resolve_source("./nginx", false, &stores, &[forest("f", "/f")], "/etc").unwrap();
    assert_eq!(r, "./nginx");
}

#[test]
fn unknown_handle_is_an_error() {
    let stores = [store("f", "nginx", "/f/nginx/nginx.log")];
    let err = resolve_source("absent", false, &stores, &[forest("f", "/f")], "/etc")
        .unwrap_err()
        .message();
    assert!(err.contains("no store `absent`"), "got: {err}");
}

#[test]
fn ambiguous_handle_is_an_error() {
    let stores = [store("a", "dup", "/a/dup.log"), store("b", "dup", "/b/dup.log")];
    let forests = [forest("a", "/a"), forest("b", "/b")];
    let err = resolve_source("dup", false, &stores, &forests, "/etc").unwrap_err();
    let said = err.message();
    assert!(said.contains("ambiguous"), "got: {said}");
    assert!(said.contains("dup.log"), "got: {said}");
    assert!(matches!(err, ForestError::AmbiguousHandle { .. }));
}

#[test]
fn no_forests_configured_is_a_distinct_error() {
    let err = resolve_source("nginx", false, &[], &[], "/etc")
        .unwrap_err()
        .message();
    assert!(err.contains("no forests configured"), "got: {err}");
}

#[test]
fn a_store_is_found_by_its_declared_name_and_by_its_identity() {
    let mut a = store("f", "app", "/f/app.log");
    a.declared = Some("web".into());
    a.id = Some("0d01f72b-cc35-4da6-aa3a-77a6ced1b996".into());
    let mut b = store("f", "db", "/f/db.log");
    b.declared = Some("db".into());
    b.id = Some("899c8aad-4d3d-4c60-b125-ee5ce7e1cc86".into());
    let forests = [forest("f", "/f")];
    let stores = [a, b];
    assert_eq!(
        lookup_handle("web", &stores, &forests, "/etc").unwrap(),
        "/f/app.log"
    );
    assert_eq!(
        lookup_handle("899c8aad-4d3d-4c60-b125-ee5ce7e1cc86", &stores, &forests, "/etc").unwrap(),
        "/f/db.log"
    );
}

#[test]
fn forests_are_declared_one_to_a_file_and_found_by_name() {
    let f = parse_forest_file("archive", "# where\nDIR=/srv/archive\n").unwrap();
    assert_eq!((f.name.as_str(), f.dir.as_str()), ("archive", "/srv/archive"));
    assert!(parse_forest_file("archive", "# nothing\n").is_none());
    for unusable in ["DIR=", "DIR=\n", " DIR =  \n# more\n", "DIR=/a\nDIR=\n"] {
        assert!(parse_forest_file("archive", unusable).is_none(), "{unusable:?}");
    }
    let last = parse_forest_file("archive", "DIR=\nDIR=/b\n").unwrap();
    assert_eq!(last.dir, "/b", "the last one stands");
    let env = forests_from_env("/a:/b");
    assert_eq!(env.len(), 2);
    assert_eq!(env[1].dir, "/b");
    let all = vec![f];
    assert_eq!(dir_of("archive", &all).unwrap(), "/srv/archive");
    assert!(dir_of("nope", &all).unwrap_err().contains("nope"));
    assert_eq!(into_dir(Some("archive"), None, &all).unwrap().dir, "/srv/archive");
}

#[test]
fn a_forest_that_is_declared_already_is_told_apart_from_one_that_clashes() {
    let existing = vec![Declared {
        name: "logs".into(),
        place: place("/srv/logs"),
    }];
    assert!(declare_step("logs", &place("/srv/logs"), &existing).is_ok());
    assert!(matches!(
        declare_step("logs", &place("/srv/other"), &existing),
        Err(DeclareError::NameTaken { .. })
    ));
    let nested = declare_step("deep", &place("/srv/logs/deep"), &existing).unwrap_err();
    assert!(nested.message().contains("is inside"), "{}", nested.message());
}

#[test]
fn a_declared_forest_is_read_back_and_stands_apart() {
    let text = declaration_text("logs", "/srv/my logs");
    let read = parse_forest_file("logs", &text).unwrap();
    assert_eq!((read.name.as_str(), read.dir.as_str()), ("logs", "/srv/my logs"));

    let mut all = vec![Declared {
        name: "old".into(),
        place: place("/srv/old"),
    }];
    assert_eq!(declare_step("logs", &place("/srv/logs"), &all), Ok(DeclareStep::Declare));
    all.push(Declared {
        name: "logs".into(),
        place: place("/srv/logs"),
    });
    assert_eq!(declare_step("logs", &place("/srv/logs/"), &all), Ok(DeclareStep::AlreadyThere));
    assert!(matches!(
        declare_step("same", &place("/srv/logs"), &all),
        Err(DeclareError::DirTaken { .. })
    ));
}

#[test]
fn a_listing_says_which_files_are_read_and_in_which_order() {
    let names = |v: &[&str]| v.iter().map(|s| s.to_string()).collect::<Vec<_>>();
    let all = names(&["b.conf", "a.conf", ".conf", "c.conf.bak", "README", "z.conf.conf", "tmp"]);
    assert_eq!(conf_files(&all), ["a.conf", "b.conf", "z.conf.conf"]);
    let cursors = names(&["ship", "audit.json", "ship.tmp", ".tmp", "a.tmp.json"]);
    assert_eq!(cursor_files(&cursors), [".tmp", "a.tmp.json", "audit.json", "ship"]);
    assert_eq!(in_order(&names(&["web", "db", "a-b"])), ["a-b", "db", "web"]);
    for (name, stem) in [("a.conf", "a"), ("a.b.conf", "a.b"), (".conf", ".conf"), ("x", "x"), ("..", "..")] {
        assert_eq!(stem_of(name), stem);
    }
}

#[test]
fn a_forest_is_listed_as_an_object() {
    let f = Forest {
        name: "logs".into(),
        dir: "/srv/logs".into(),
    };
    let row = forest_row(&f, true, false, 3, "/etc/logs.conf");
    assert_eq!(
        row.compact(),
        r#"{"declared_in":"/etc/logs.conf","dir":"/srv/logs","exists":true,"name":"logs","stores":3,"writable":false}"#
    );
    assert_eq!(
        pretty_list(&vec![row]).unwrap(),
        "[\n  {\n    \"declared_in\": \"/etc/logs.conf\",\n    \"dir\": \"/srv/logs\",\n    \"exists\": true,\n    \"name\": \"logs\",\n    \"stores\": 3,\n    \"writable\": false\n  }\n]"
    );
    assert_eq!(pretty_list(&vec![]).unwrap(), "[]");
}
