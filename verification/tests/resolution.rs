use bitey::closure::{ClosureWalk, WalkStep};
use bitey::locate::locate;
use bitey::manifest::Manifest;
use bitey::remotes::find_remotes;
use bitey::PkgError;

fn mk(name: &str, deps: &[&str]) -> Manifest {
    Manifest {
        name: name.to_string(),
        version: "1.0".to_string(),
        maintainer: "m".to_string(),
        description: "d".to_string(),
        raw_url: None,
        archive_url: None,
        install_command: "true".to_string(),
        dependencies: deps.iter().map(|d| d.to_string()).collect(),
    }
}

#[test]
fn remotes_come_out_sorted() {
    let entries = vec![
        ("beta".to_string(), "url: http://beta.test\n".to_string()),
        ("alpha".to_string(), "url: http://alpha.test\n".to_string()),
    ];
    let (remotes, skipped) = find_remotes(&entries);
    assert!(skipped.is_empty());
    assert_eq!(remotes.len(), 2);
    assert_eq!(remotes[0].name, "alpha");
    assert_eq!(remotes[0].url, "http://alpha.test");
    assert_eq!(remotes[1].name, "beta");
    assert_eq!(remotes[1].url, "http://beta.test");
}

#[test]
fn repeated_remote_name_keeps_last_descriptor() {
    let entries = vec![
        ("mirror".to_string(), "url: http://one.test\n".to_string()),
        ("mirror".to_string(), "url: http://two.test\n".to_string()),
    ];
    let (remotes, skipped) = find_remotes(&entries);
    assert!(skipped.is_empty());
    assert_eq!(remotes.len(), 1);
    assert_eq!(remotes[0].url, "http://two.test");
}

#[test]
fn unreadable_descriptor_is_skipped_not_fatal() {
    let entries = vec![
        ("bad".to_string(), "no url here: 3\n".to_string()),
        ("good".to_string(), "url: http://good.test\n".to_string()),
    ];
    let (remotes, skipped) = find_remotes(&entries);
    assert_eq!(skipped, vec![0]);
    assert_eq!(remotes.len(), 1);
    assert_eq!(remotes[0].name, "good");
}

#[test]
fn locate_prefers_first_remote_in_order() {
    // both remotes list the package; the first in sorted order wins,
    // and repeated runs agree
    let indexes = vec![
        Some(vec!["tool".to_string(), "other".to_string()]),
        Some(vec!["tool".to_string()]),
    ];
    for _ in 0..3 {
        assert_eq!(locate("tool", &indexes).unwrap(), 0);
    }
    assert_eq!(locate("other", &indexes).unwrap(), 0);
}

#[test]
fn locate_skips_unfetched_and_nonlisting_remotes() {
    let indexes = vec![
        None,
        Some(vec!["something".to_string()]),
        Some(vec!["tool".to_string()]),
    ];
    assert_eq!(locate("tool", &indexes).unwrap(), 2);
}

#[test]
fn locate_reports_package_not_found() {
    let indexes = vec![Some(vec!["a".to_string()]), None];
    match locate("missing", &indexes) {
        Err(PkgError::PackageNotFound(n)) => assert_eq!(n, "missing"),
        other => panic!("expected not-found, got {:?}", other),
    }
}

#[test]
fn closure_of_leaf_root_is_empty() {
    let mut walk = ClosureWalk::new(mk("leaf", &[]));
    match walk.collect_deps() {
        WalkStep::Done => {}
        other => panic!("expected an immediate finish, got {:?}", step_name(&other)),
    }
    assert!(walk.into_closure().is_empty());
}

#[test]
fn closure_installs_dependency_before_dependent() {
    // remote R lists app 1.0 depending on lib; lib has no dependencies
    let mut walk = ClosureWalk::new(mk("app", &["lib"]));
    match walk.collect_deps() {
        WalkStep::Request(n) => assert_eq!(n, "lib"),
        other => panic!("expected a fetch request, got {:?}", step_name(&other)),
    }
    walk.provide(mk("lib", &[]), "url: http://r.test/lib-manifest.yml\n".to_string());
    match walk.collect_deps() {
        WalkStep::Done => {}
        other => panic!("expected the walk to finish, got {:?}", step_name(&other)),
    }
    let members = walk.into_closure();
    assert_eq!(members.len(), 1);
    assert_eq!(members[0].name, "lib");
    assert_eq!(members[0].pointer, "url: http://r.test/lib-manifest.yml\n");
    // install order: closure members first, the root last
    let mut order: Vec<String> = members.iter().map(|e| e.name.clone()).collect();
    order.push("app".to_string());
    assert_eq!(order, vec!["lib".to_string(), "app".to_string()]);
}

#[test]
fn diamond_dependency_is_fetched_once() {
    // root -> a, b; a -> shared; b -> shared
    let mut walk = ClosureWalk::new(mk("root", &["a", "b"]));
    let mut requested: Vec<String> = Vec::new();
    loop {
        match walk.collect_deps() {
            WalkStep::Request(n) => {
                requested.push(n.clone());
                let m = match n.as_str() {
                    "a" => mk("a", &["shared"]),
                    "b" => mk("b", &["shared"]),
                    "shared" => mk("shared", &[]),
                    other => panic!("unexpected request for {}", other),
                };
                walk.provide(m, format!("ptr-{}", n));
            }
            WalkStep::Done => break,
            WalkStep::Fail(e) => panic!("unexpected failure {:?}", e),
        }
    }
    // each name fetched exactly once, diamond or not
    assert_eq!(
        requested,
        vec!["a".to_string(), "shared".to_string(), "b".to_string()]
    );
    let names: Vec<String> = walk.into_closure().iter().map(|e| e.name.clone()).collect();
    assert_eq!(
        names,
        vec!["shared".to_string(), "a".to_string(), "b".to_string()]
    );
}

#[test]
fn acyclic_law_runs_on_concrete_manifests() {
    // the statically proved two-package law, exercised at runtime
    let members = bitey::laws::acyclic_drive_law(
        mk("app", &["lib"]),
        mk("lib", &[]),
        "url: http://r.test/lib-manifest.yml\n".to_string(),
    );
    assert_eq!(members.len(), 1);
    assert_eq!(members[0].name, "lib");
    assert_eq!(members[0].manifest.name, "lib");
    assert_eq!(members[0].pointer, "url: http://r.test/lib-manifest.yml\n");
}

#[test]
fn cycle_law_runs_on_concrete_manifests() {
    // the statically proved cycle law, exercised at runtime
    bitey::laws::cycle_drive_law(
        mk("a", &["b"]),
        mk("b", &["a"]),
        "ptr-b".to_string(),
    );
}

#[test]
fn dependency_cycle_fails_instead_of_looping() {
    // a depends on b, b depends on a
    let mut walk = ClosureWalk::new(mk("a", &["b"]));
    match walk.collect_deps() {
        WalkStep::Request(n) => assert_eq!(n, "b"),
        other => panic!("expected a fetch request, got {:?}", step_name(&other)),
    }
    walk.provide(mk("b", &["a"]), "ptr-b".to_string());
    match walk.collect_deps() {
        WalkStep::Fail(PkgError::CircularDependency(n)) => assert_eq!(n, "a"),
        other => panic!("expected a circular-dependency failure, got {:?}", step_name(&other)),
    }
}

fn step_name(step: &WalkStep) -> &'static str {
    match step {
        WalkStep::Request(_) => "a fetch request",
        WalkStep::Done => "a finished walk",
        WalkStep::Fail(_) => "a failure",
    }
}
