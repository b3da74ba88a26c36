use bitey::manifest::{parse_manifest, parse_pointer, Manifest};
use bitey::locate::{list_url, parse_package_list, pointer_url};
use bitey::store::{archive_path, manifest_path, pointer_path, store_dir};
use bitey::strutil::{str_eq, str_le, str_lt};
use bitey::remotes::{remote_descriptor_text, remote_name_of_url, remote_url_of_arg};
use bitey::strutil::replace_all_str;
use bitey::yaml::parse_url_doc;
use bitey::PkgError;

const FULL_MANIFEST: &str = "name: demo\nversion: \"1.0\"\nmaintainer: someone\ndescription: a demo package\nsource:\n  raw: http://example.test/demo.tar\n  package: http://example.test/demo.pkg\ninstall:\n  commands: echo hi\ndependencies:\n  - lib\n  - tool\n";

#[test]
fn manifest_full_document() {
    let m: Manifest = parse_manifest(FULL_MANIFEST).unwrap();
    assert_eq!(m.name, "demo");
    assert_eq!(m.version, "1.0");
    assert_eq!(m.maintainer, "someone");
    assert_eq!(m.description, "a demo package");
    assert_eq!(m.raw_url.as_deref(), Some("http://example.test/demo.tar"));
    assert_eq!(m.archive_url.as_deref(), Some("http://example.test/demo.pkg"));
    assert_eq!(m.install_command, "echo hi");
    assert_eq!(m.dependencies, vec!["lib".to_string(), "tool".to_string()]);
}

#[test]
fn manifest_without_optional_fields() {
    let text = "name: tiny\nversion: \"2\"\nmaintainer: m\ndescription: d\nsource: {}\ninstall:\n  commands: echo ok\n";
    let m = parse_manifest(text).unwrap();
    assert_eq!(m.name, "tiny");
    assert_eq!(m.raw_url, None);
    assert_eq!(m.archive_url, None);
    assert!(m.dependencies.is_empty());
}

#[test]
fn manifest_missing_version_is_malformed() {
    let text = "name: broken\nmaintainer: m\ndescription: d\nsource: {}\ninstall:\n  commands: x\n";
    match parse_manifest(text) {
        Err(PkgError::MalformedDocument(_)) => {}
        other => panic!("expected a malformed-document error, got {:?}", other),
    }
}

#[test]
fn manifest_bad_dependency_list_is_malformed() {
    let text = "name: broken\nversion: \"1\"\nmaintainer: m\ndescription: d\nsource: {}\ninstall:\n  commands: x\ndependencies: 7\n";
    assert!(matches!(
        parse_manifest(text),
        Err(PkgError::MalformedDocument(_))
    ));
}

#[test]
fn manifest_invalid_yaml_is_malformed() {
    assert!(matches!(
        parse_manifest(": : :"),
        Err(PkgError::MalformedDocument(_))
    ));
}

#[test]
fn pointer_extracts_url() {
    let text = "url: http://example.test/demo-manifest.yml\n";
    assert_eq!(
        parse_pointer(text).unwrap(),
        "http://example.test/demo-manifest.yml"
    );
}

#[test]
fn pointer_without_url_is_malformed() {
    assert!(matches!(
        parse_pointer("other: 3\n"),
        Err(PkgError::MalformedDocument(_))
    ));
    assert!(parse_url_doc("url:\n  - not-a-string\n").is_none());
}

#[test]
fn package_list_splits_lines() {
    let names = parse_package_list("alpha\nbeta\r\ngamma");
    assert_eq!(
        names,
        vec!["alpha".to_string(), "beta".to_string(), "gamma".to_string()]
    );
}

#[test]
fn package_list_trailing_newline_and_empty() {
    assert_eq!(parse_package_list("solo\n"), vec!["solo".to_string()]);
    assert!(parse_package_list("").is_empty());
}

#[test]
fn url_builders_compose_exactly() {
    assert_eq!(list_url("http://r.test"), "http://r.test/list.txt");
    assert_eq!(
        pointer_url("http://r.test", "demo"),
        "http://r.test/demo.yml"
    );
}

#[test]
fn store_paths_compose_exactly() {
    let dir = store_dir("/opt/pkgs", "demo");
    assert_eq!(dir, "/opt/pkgs/demo");
    assert_eq!(manifest_path(&dir), "/opt/pkgs/demo/Thread.yml");
    assert_eq!(pointer_path(&dir), "/opt/pkgs/demo/package.yml");
    assert_eq!(archive_path(&dir, "demo"), "/opt/pkgs/demo/demo.choco.pkg");
}

#[test]
fn remote_add_expands_the_ppa_shorthand() {
    assert_eq!(
        remote_url_of_arg("ppa:profile/tools"),
        "http://ppa.wheedev.org/profile/tools"
    );
    // the marker is stripped however often it repeats
    assert_eq!(
        remote_url_of_arg("ppa:ppa:tools"),
        "http://ppa.wheedev.org/tools"
    );
    assert_eq!(
        remote_url_of_arg("http://plain.test/repo"),
        "http://plain.test/repo"
    );
}

#[test]
fn remote_name_flattens_the_url() {
    assert_eq!(
        remote_name_of_url("http://ppa.wheedev.org/profile/tools"),
        "ppa.wheedev.org_profile_tools"
    );
    assert_eq!(
        remote_name_of_url("https://mirror.test/a/b"),
        "mirror.test_a_b"
    );
}

#[test]
fn remote_descriptor_text_is_the_single_field_document() {
    let text = remote_descriptor_text("http://r.test");
    assert_eq!(text, "url: http://r.test\n");
    // the descriptor round-trips through the registry's parser
    assert_eq!(parse_url_doc(&text).unwrap(), "http://r.test");
}

#[test]
fn replace_all_is_global_and_left_to_right() {
    assert_eq!(replace_all_str("a/b/c", "/", "_"), "a_b_c");
    assert_eq!(replace_all_str("aaa", "aa", "b"), "ba");
    assert_eq!(replace_all_str("none here", "zz", "y"), "none here");
    assert_eq!(replace_all_str("http://x http://y", "http://", ""), "x y");
}

#[test]
fn string_order_and_equality() {
    assert!(str_lt("alpha", "beta"));
    assert!(!str_lt("beta", "alpha"));
    assert!(str_le("alpha", "alpha"));
    assert!(!str_lt("alpha", "alpha"));
    assert!(str_eq("same", "same"));
    assert!(!str_eq("same", "other"));
    assert!(str_lt("ab", "abc"));
}
