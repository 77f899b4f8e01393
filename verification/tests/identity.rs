use timberfs::bark::{
    identity_step, mint_missing_identity, settle_identity, settled_identity, IdentityError,
    IdentitySide, IdentityStep, Verdict,
};
use timberfs::declare::{
    create_decision, create_manifest, created_note, declaration_drift, drift_warning, CreateStep,
};
use timberfs::export::{select_chunks, ExportError};
use timberfs::forest::{lookup_handle, stores_by_anchor, Anchored, Forest, ForestError, Scanned};
use timberfs::forests::{
    declaration_text, declare_step, default_name, dir_state, forests_for_list, list_line,
    list_width, parse_forest_file, DeclareError, DeclareStep, Declared, DirState, Place,
};
use timberfs::json::{Fields, Json};

const A: &str = "0d01f72b-cc35-4da6-aa3a-77a6ced1b996";
const B: &str = "899c8aad-4d3d-4c60-b125-ee5ce7e1cc86";

fn with_id(id: &str) -> Fields {
    let mut f = Fields::new();
    f.insert("id", Json::Text(id.into()));
    f.insert("host", Json::Text("web".into()));
    f
}

#[test]
fn the_two_halves_of_an_identity_are_compared_and_settled() {
    let at = |mint, keep, m, i| identity_step(mint, keep, m, i);
    assert_eq!(at(false, None, Some(A), Some(A)), Ok(IdentityStep::Report(Verdict::Consistent)));
    assert_eq!(at(false, None, Some(A), Some(B)), Ok(IdentityStep::Report(Verdict::Disagree)));
    assert_eq!(at(false, None, Some(A), None), Ok(IdentityStep::Report(Verdict::ManifestOnly)));
    assert_eq!(at(false, None, None, Some(A)), Ok(IdentityStep::Report(Verdict::IndexOnly)));
    assert_eq!(at(false, None, None, None), Ok(IdentityStep::Report(Verdict::Neither)));
    assert_eq!(at(true, None, None, None), Ok(IdentityStep::Mint));
    assert_eq!(
        at(false, Some(IdentitySide::Index), Some(A), Some(B)),
        Ok(IdentityStep::Settle(B.into()))
    );
    assert_eq!(
        at(false, Some(IdentitySide::Manifest), Some(A), Some(B)),
        Ok(IdentityStep::Settle(A.into()))
    );
    assert_eq!(
        at(true, Some(IdentitySide::Index), None, None),
        Err(IdentityError::MintAndKeep)
    );
    assert_eq!(
        at(true, None, None, Some(A)),
        Err(IdentityError::AlreadyIdentified(A.into()))
    );
    assert_eq!(
        at(false, Some(IdentitySide::Index), Some(A), None),
        Err(IdentityError::IndexHasNone)
    );
    assert_eq!(
        at(false, Some(IdentitySide::Manifest), None, Some(A)),
        Err(IdentityError::ManifestHasNone)
    );
    let settled = settle_identity(Some(&with_id(A)), Some(B));
    assert_eq!(settled.text_at("id").as_deref(), Some(B));
    assert_eq!(settled.text_at("host").as_deref(), Some("web"));
    assert!(settled_identity(Some(&settled)).is_ok());
    assert_eq!(settled_identity(None), Err(IdentityError::NotTaken));
    assert_eq!(
        settled_identity(Some(&with_id("x"))),
        Err(IdentityError::NotAUuid("x".into()))
    );
    assert!(mint_missing_identity(Some(&with_id(A)), None).is_none());
    let recovered = mint_missing_identity(None, Some(A)).unwrap();
    assert!(recovered.recovered);
    assert_eq!(recovered.manifest.text_at("id").as_deref(), Some(A));
}

#[test]
fn an_existing_pair_stands_and_drift_is_told() {
    let none = Fields::new();
    assert_eq!(create_decision(true, false, &none), CreateStep::Refuse);
    assert_eq!(create_decision(true, true, &none), CreateStep::Keep);
    assert_eq!(create_decision(false, true, &none), CreateStep::Create { manifest: false });
    let sets = vec!["host=db".to_string()];
    let want = create_manifest(true, false, Some("30d"), None, false, &sets).unwrap();
    assert_eq!(create_decision(false, false, &want), CreateStep::Create { manifest: true });
    let drift = declaration_drift(&with_id(A), &want);
    assert_eq!(drift.len(), 3, "{drift:?}");
    let said = drift_warning("app.log", &drift).unwrap();
    assert!(said.starts_with("timberfs: warning: app.log already exists and "), "{said}");
    assert!(drift_warning("app.log", &vec![]).is_none());
    assert_eq!(
        created_note("/d", "app.log", true, true, Some("/d/app.log.bark")),
        "timberfs: created /d/app.log (indexed) (wal) with manifest /d/app.log.bark"
    );
}

#[test]
fn a_window_that_ends_before_it_starts_is_refused() {
    assert_eq!(select_chunks(&[], Some(9), Some(3), false), Err(ExportError::Backwards));
    assert_eq!(select_chunks(&[], None, None, true), Err(ExportError::Empty));
    assert!(!ExportError::Backwards.message().is_empty());
}

fn scanned(handle: &str, path: &str, declared: &str, id: &str) -> Scanned {
    Scanned {
        forest: "f".into(),
        handle: handle.into(),
        path: path.into(),
        declared: Some(declared.into()),
        id: Some(id.into()),
    }
}

#[test]
fn every_way_of_not_finding_one_store_has_its_error() {
    let forests = [Forest { name: "f".into(), dir: "/f".into() }];
    let stores = [
        scanned("a", "/f/a.log", "web", A),
        scanned("b", "/f/b.log", "web", "0d01f72b-ffff-4da6-aa3a-77a6ced1b996"),
    ];
    let at = |token: &str| lookup_handle(token, &stores, &forests, "/etc");
    assert!(matches!(at("web"), Err(ForestError::AmbiguousName { .. })));
    assert!(matches!(at("0d01f72b"), Err(ForestError::AmbiguousId { .. })));
    assert_eq!(at("0d01f72b-cc35").unwrap(), "/f/a.log");
    assert!(matches!(at("nope"), Err(ForestError::NoStore { .. })));
    assert!(matches!(
        lookup_handle("nope", &[], &[], "/etc"),
        Err(ForestError::NoForests { .. })
    ));
}

#[test]
fn stores_are_found_by_what_identifies_them() {
    let one = |path: &str, anchor: &str| Anchored {
        path: path.into(),
        anchor: anchor.into(),
    };
    let all = [one("/f/b.log", A), one("/f/a.log", A), one("/f/c.log", B)];
    assert_eq!(stores_by_anchor(A, &all), ["/f/a.log", "/f/b.log"]);
    assert!(stores_by_anchor("x", &all).is_empty());
}

#[test]
fn a_forest_is_declared_and_listed() {
    let place = |p: &str| Place {
        given: p.into(),
        canonical: None,
    };
    let existing = vec![Declared {
        name: "logs".into(),
        place: place("/srv/logs"),
    }];
    assert_eq!(
        declare_step("logs", &place("/srv/logs/"), &existing),
        Ok(DeclareStep::AlreadyThere)
    );
    assert_eq!(declare_step("new", &place("/srv/new"), &existing), Ok(DeclareStep::Declare));
    assert!(matches!(
        declare_step("other", &place("/srv/logs"), &existing),
        Err(DeclareError::DirTaken { .. })
    ));
    let text = declaration_text("logs", "/srv/logs");
    assert_eq!(parse_forest_file("logs", &text).unwrap().dir, "/srv/logs");
    assert_eq!(default_name("/srv/logs").as_deref(), Some("logs"));
    assert_eq!(dir_state(false, true), DirState::Missing);
    assert_eq!(dir_state(true, false), DirState::ReadOnly);
    assert_eq!(dir_state(true, true), DirState::Usable);
    let configured = vec![Forest { name: "logs".into(), dir: "/srv/logs".into() }];
    assert_eq!(forests_for_list(&vec![], configured.clone()).len(), 1);
    assert_eq!(forests_for_list(&vec!["/x".into()], configured.clone())[0].dir, "/x");
    let w = list_width(&configured);
    assert_eq!(w, 6);
    assert_eq!(
        list_line("logs", "3", "ok", "/srv/logs", w),
        "logs         3  ok         /srv/logs"
    );
}
