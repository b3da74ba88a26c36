use bitey::install::{batch_failed, install_plan, step_failure, InstallStep};
use bitey::manifest::Manifest;
use bitey::store::{Store, StoreRecord};
use bitey::update::{apply_update, stored_pointer, UpdateOutcome};
use bitey::PkgError;

fn mk_versioned(name: &str, version: &str) -> Manifest {
    Manifest {
        name: name.to_string(),
        version: version.to_string(),
        maintainer: "m".to_string(),
        description: "d".to_string(),
        raw_url: None,
        archive_url: None,
        install_command: "true".to_string(),
        dependencies: Vec::new(),
    }
}

#[test]
fn store_roundtrip_returns_what_was_installed() {
    let mut store = Store::new();
    store.put_record(
        "demo",
        StoreRecord {
            pointer: "url: http://r.test/demo.yml\n".to_string(),
            manifest: Some(mk_versioned("demo", "1.0")),
        },
    );
    let rec = store.get("demo").expect("the record just installed");
    assert_eq!(rec.pointer, "url: http://r.test/demo.yml\n");
    let m = rec.manifest.as_ref().expect("the manifest just installed");
    assert_eq!(m.name, "demo");
    assert_eq!(m.version, "1.0");
}

#[test]
fn reinstall_overwrites_the_record() {
    let mut store = Store::new();
    store.put_record(
        "demo",
        StoreRecord { pointer: "p1".to_string(), manifest: Some(mk_versioned("demo", "1.0")) },
    );
    store.put_record(
        "demo",
        StoreRecord { pointer: "p2".to_string(), manifest: Some(mk_versioned("demo", "1.1")) },
    );
    let rec = store.get("demo").unwrap();
    assert_eq!(rec.pointer, "p2");
    assert_eq!(rec.manifest.as_ref().unwrap().version, "1.1");
}

#[test]
fn remove_on_never_installed_name_is_not_found() {
    let mut store = Store::new();
    store.put_record(
        "other",
        StoreRecord { pointer: "p".to_string(), manifest: None },
    );
    match store.remove("demo") {
        Err(PkgError::NotInstalled(n)) => assert_eq!(n, "demo"),
        other => panic!("expected not-installed, got {:?}", other),
    }
    // the store is untouched
    assert!(store.get("other").is_some());
}

#[test]
fn remove_deletes_and_later_operations_report_absence() {
    let mut store = Store::new();
    store.put_record(
        "demo",
        StoreRecord { pointer: "p".to_string(), manifest: Some(mk_versioned("demo", "1.0")) },
    );
    assert!(store.remove("demo").is_ok());
    assert!(store.get("demo").is_none());
    // a later update sees no record
    match stored_pointer(&store, "demo") {
        Err(PkgError::NotInstalled(n)) => assert_eq!(n, "demo"),
        other => panic!("expected not-installed, got {:?}", other),
    }
    // a later remove sees no record either
    assert!(matches!(
        store.remove("demo"),
        Err(PkgError::NotInstalled(_))
    ));
}

#[test]
fn update_refreshes_when_remote_serves_newer_version() {
    // locally stored app at 1.0; the remote now serves 1.1
    let mut store = Store::new();
    store.put_record(
        "app",
        StoreRecord { pointer: "ptr-app".to_string(), manifest: Some(mk_versioned("app", "1.0")) },
    );
    let outcome = apply_update(&mut store, "app", mk_versioned("app", "1.1"));
    assert_eq!(outcome, UpdateOutcome::Updated("1.1".to_string()));
    let rec = store.get("app").unwrap();
    assert_eq!(rec.manifest.as_ref().unwrap().version, "1.1");
    // the pointer is kept verbatim
    assert_eq!(rec.pointer, "ptr-app");
}

#[test]
fn update_twice_is_idempotent() {
    let mut store = Store::new();
    store.put_record(
        "app",
        StoreRecord { pointer: "ptr-app".to_string(), manifest: Some(mk_versioned("app", "1.0")) },
    );
    assert_eq!(
        apply_update(&mut store, "app", mk_versioned("app", "1.1")),
        UpdateOutcome::Updated("1.1".to_string())
    );
    // no upstream change: both further calls conclude up to date and
    // write nothing
    assert_eq!(
        apply_update(&mut store, "app", mk_versioned("app", "1.1")),
        UpdateOutcome::UpToDate("1.1".to_string())
    );
    assert_eq!(
        apply_update(&mut store, "app", mk_versioned("app", "1.1")),
        UpdateOutcome::UpToDate("1.1".to_string())
    );
    let rec = store.get("app").unwrap();
    assert_eq!(rec.manifest.as_ref().unwrap().version, "1.1");
    assert_eq!(rec.pointer, "ptr-app");
}

#[test]
fn update_on_missing_record_is_not_installed() {
    let mut store = Store::new();
    assert_eq!(
        apply_update(&mut store, "ghostly", mk_versioned("ghostly", "1.0")),
        UpdateOutcome::NotInstalled
    );
}

#[test]
fn update_with_unreadable_local_manifest_refreshes() {
    let mut store = Store::new();
    store.put_record(
        "app",
        StoreRecord { pointer: "ptr-app".to_string(), manifest: None },
    );
    assert_eq!(
        apply_update(&mut store, "app", mk_versioned("app", "1.0")),
        UpdateOutcome::Updated("1.0".to_string())
    );
}

#[test]
fn stored_pointer_recovers_the_raw_text() {
    let mut store = Store::new();
    store.put_record(
        "app",
        StoreRecord { pointer: "url: http://r.test/app.yml\n".to_string(), manifest: None },
    );
    assert_eq!(
        stored_pointer(&store, "app").unwrap(),
        "url: http://r.test/app.yml\n"
    );
}

#[test]
fn install_plan_with_archive_downloads_then_extracts_then_runs() {
    let mut m = mk_versioned("demo", "1.0");
    m.archive_url = Some("http://example.test/demo.pkg".to_string());
    m.install_command = "echo install".to_string();
    let plan = install_plan(&m);
    assert_eq!(plan.len(), 4);
    assert!(matches!(plan[0], InstallStep::WriteRecord));
    match &plan[1] {
        InstallStep::Download(u) => assert_eq!(u, "http://example.test/demo.pkg"),
        other => panic!("expected the download step, got {:?}", other),
    }
    assert!(matches!(plan[2], InstallStep::Extract));
    match &plan[3] {
        InstallStep::RunScript(c) => assert_eq!(c, "echo install"),
        other => panic!("expected the script step, got {:?}", other),
    }
}

#[test]
fn install_plan_without_archive_skips_download() {
    let plan = install_plan(&mk_versioned("demo", "1.0"));
    assert_eq!(plan.len(), 2);
    assert!(matches!(plan[0], InstallStep::WriteRecord));
    assert!(matches!(plan[1], InstallStep::RunScript(_)));
}

#[test]
fn each_step_fails_with_its_own_error_kind() {
    assert!(matches!(
        step_failure(&InstallStep::WriteRecord, "p"),
        PkgError::StoreWriteFailed(_)
    ));
    assert!(matches!(
        step_failure(&InstallStep::Download("u".to_string()), "p"),
        PkgError::ArchiveDownloadFailed(_)
    ));
    assert!(matches!(
        step_failure(&InstallStep::Extract, "p"),
        PkgError::ArchiveExtractFailed(_)
    ));
    assert!(matches!(
        step_failure(&InstallStep::RunScript("c".to_string()), "p"),
        PkgError::InstallScriptFailed(_)
    ));
}

#[test]
fn batch_fails_exactly_when_a_member_failed() {
    assert!(!batch_failed(&vec![]));
    assert!(!batch_failed(&vec![None, None]));
    assert!(batch_failed(&vec![
        None,
        Some(PkgError::InstallScriptFailed("p".to_string())),
        None,
    ]));
}
