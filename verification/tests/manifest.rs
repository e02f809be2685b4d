use jackdaw_build::error::PlanError;
use jackdaw_build::manifest::{absolute_path, looks_like_path, parse_features, Features, SdkManifest};
use jackdaw_build::package_id::{package_id_name, package_id_raw_name, package_id_version};

fn feature_set(features: &[&str]) -> Features {
    let mut set = Features::new();
    for f in features {
        set = set.insert(f.to_string());
    }
    set
}

fn manifest_of(entries: &[(&str, &str, &[&str], &str)]) -> SdkManifest {
    let mut manifest = SdkManifest::new();
    for (name, version, features, path) in entries {
        manifest = manifest.insert(name, version, feature_set(features), path);
    }
    manifest
}

#[test]
fn package_ids_parse() {
    let reg = "registry+https://github.com/rust-lang/crates.io-index#glam@0.32.1";
    assert_eq!(package_id_version(reg), Some("0.32.1"));
    assert_eq!(package_id_name(reg).as_deref(), Some("glam"));
    let path = "path+file:///home/u/my-game#0.1.0";
    assert_eq!(package_id_version(path), Some("0.1.0"));
    assert_eq!(package_id_name(path).as_deref(), Some("my_game"));
    assert_eq!(package_id_raw_name(path).as_deref(), Some("my-game"));
}

/// Lock alignment pins a crate to "the SDK's version", which only means
/// something when the SDK holds one.
#[test]
fn only_an_unambiguous_sdk_version_can_be_pinned_to() {
    let manifest = manifest_of(&[
        ("serde_json", "1.0.149", &["std"], "/sdk/libserde_json.rlib"),
        ("windows_sys", "0.52.0", &["Win32"], "/sdk/libws52.rlib"),
        ("windows_sys", "0.60.2", &["Win32"], "/sdk/libws60.rlib"),
    ]);

    assert_eq!(manifest.sole_version("serde_json"), Some("1.0.149"));
    assert_eq!(manifest.version_count("serde_json"), 1);

    assert_eq!(
        manifest.sole_version("windows_sys"),
        None,
        "several majors: no single version to pin to"
    );
    assert_eq!(manifest.version_count("windows_sys"), 2);

    assert_eq!(manifest.sole_version("not_in_the_sdk"), None);
}

/// Feature coverage drives a diagnostic, not a skip.
#[test]
fn a_feature_shortfall_is_detected_and_named() {
    let manifest = manifest_of(&[(
        "windows_sys",
        "0.60.2",
        &["Win32", "Win32_Foundation"],
        "/sdk/libwindows_sys.rlib",
    )]);
    let wanted = feature_set(&["Win32", "Win32_UI", "Win32_System_Ole"]);

    assert!(!manifest.covers_features("windows_sys", "0.60.2", &wanted));
    assert_eq!(
        manifest.feature_shortfall("windows_sys", "0.60.2", &wanted),
        "Win32_System_Ole,Win32_UI",
        "the message must name exactly what the SDK lacks"
    );
    // Covered: nothing to report.
    assert_eq!(
        manifest.feature_shortfall("windows_sys", "0.60.2", &feature_set(&["Win32"])),
        ""
    );
}

/// An edge may only redirect to an SDK artifact built with at least the
/// features its consumer resolved.
#[test]
fn an_edge_redirects_only_when_the_sdk_covers_its_features() {
    let manifest = manifest_of(&[(
        "windows_sys",
        "0.60.2",
        &["Win32", "Win32_Foundation"],
        "/sdk/libwindows_sys.rlib",
    )]);

    // Subset and exact match both redirect.
    assert!(manifest.covers_features("windows_sys", "0.60.2", &feature_set(&["Win32"])));
    assert!(manifest.covers_features(
        "windows_sys",
        "0.60.2",
        &feature_set(&["Win32", "Win32_Foundation"])
    ));
    // The consumer needs a feature the SDK build does not have.
    assert!(!manifest.covers_features(
        "windows_sys",
        "0.60.2",
        &feature_set(&["Win32", "Win32_UI"])
    ));
    // A version the SDK does not carry redirects to nothing.
    assert!(!manifest.covers_features("windows_sys", "0.61.2", &feature_set(&[])));
}

/// A manifest written before features were recorded still loads, and its
/// entries are treated as covering nothing rather than everything.
#[test]
fn a_legacy_manifest_loads_and_claims_no_features() {
    let manifest =
        SdkManifest::load("glam 0.32.1 C:\\sdk\\build\\glam\\abc\\out\\libglam-abc.rlib\n")
            .unwrap_or(SdkManifest::new());
    assert_eq!(
        manifest.artifact("glam", "0.32.1"),
        Some("C:\\sdk\\build\\glam\\abc\\out\\libglam-abc.rlib"),
        "the path must survive intact, separators and all"
    );
    assert!(manifest.covers_features("glam", "0.32.1", &feature_set(&[])));
    assert!(!manifest.covers_features("glam", "0.32.1", &feature_set(&["std"])));
}

/// Features survive a write/load cycle.
#[test]
fn features_round_trip_through_the_manifest_file() {
    let text = manifest_of(&[
        ("windows_sys", "0.60.2", &["Win32", "Win32_UI"], "/a.rlib"),
        ("glam", "0.32.1", &[], "/b.rlib"),
    ])
    .write();
    assert_eq!(
        text,
        "glam 0.32.1 - /b.rlib\nwindows_sys 0.60.2 Win32,Win32_UI /a.rlib\n"
    );

    let back = SdkManifest::load(&text).unwrap_or(SdkManifest::new());
    assert!(back.covers_features("windows_sys", "0.60.2", &feature_set(&["Win32_UI"])));
    assert!(!back.covers_features("windows_sys", "0.60.2", &feature_set(&["Win32_Ole"])));
    // An empty feature set writes as `-` and reads back as empty, not as a
    // feature literally named "-".
    assert_eq!(back.artifact("glam", "0.32.1"), Some("/b.rlib"));
    assert!(back.covers_features("glam", "0.32.1", &feature_set(&[])));
}

#[test]
fn manifest_round_trips() {
    let manifest = manifest_of(&[("glam", "0.32.1", &["std"], "/sdk/deps/libglam-abc.rlib")]);
    let back = SdkManifest::load(&manifest.write()).unwrap_or(SdkManifest::new());
    assert_eq!(
        back.artifact("glam", "0.32.1"),
        Some("/sdk/deps/libglam-abc.rlib")
    );
    assert_eq!(back.len(), 1);
    assert!(!back.is_empty());
}

/// A path with spaces is the rest of its line, with and without features
/// before it.
#[test]
fn a_path_may_hold_spaces() {
    let manifest = SdkManifest::load(
        "glam 0.32.1 std /my sdk/libglam.rlib\r\nserde 1.0.0 /my sdk/libserde.rlib\n",
    )
    .unwrap_or(SdkManifest::new());
    assert_eq!(manifest.artifact("glam", "0.32.1"), Some("/my sdk/libglam.rlib"));
    assert_eq!(manifest.artifact("serde", "1.0.0"), Some("/my sdk/libserde.rlib"));
    assert!(manifest.covers_features("glam", "0.32.1", &feature_set(&["std"])));
}

#[test]
fn a_short_line_is_refused() {
    match SdkManifest::load("glam 0.32.1 std /a.rlib\nserde\n") {
        Err(PlanError::Parse(m)) => assert_eq!(m, "bad manifest line: serde"),
        _ => panic!("the line has too few fields"),
    }
    match SdkManifest::load("glam 0.32.1 std /a.rlib\n\n") {
        Err(PlanError::Parse(m)) => assert_eq!(m, "bad manifest line: "),
        _ => panic!("a blank line has no fields"),
    }
}

#[test]
fn an_empty_manifest_holds_nothing() {
    let manifest = SdkManifest::load("").unwrap_or(manifest_of(&[("a", "1", &[], "/a")]));
    assert!(manifest.is_empty());
    assert_eq!(manifest.len(), 0);
    assert_eq!(manifest.artifact_for("glam"), None);
    assert_eq!(manifest.write(), "");
}

/// The artifact of a crate by name alone is that of its first version.
#[test]
fn an_artifact_is_found_by_name() {
    let manifest = manifest_of(&[
        ("windows_sys", "0.60.2", &[], "/ws60.rlib"),
        ("windows_sys", "0.52.0", &[], "/ws52.rlib"),
        ("glam", "0.32.1", &[], "/glam.rlib"),
    ]);
    assert_eq!(manifest.artifact_for("windows_sys"), Some("/ws52.rlib"));
    assert_eq!(manifest.artifact_for("glam"), Some("/glam.rlib"));
    assert_eq!(manifest.artifact_for("windows"), None);
}

/// Only absolute paths can be missing: a bare name is found wherever the SDK
/// was unpacked.
#[test]
fn missing_artifacts_are_listed_up_to_a_limit() {
    let manifest = manifest_of(&[
        ("a", "1", &[], "/sdk/liba.rlib"),
        ("b", "1", &[], "libb.rlib"),
        ("c", "1", &[], "/sdk/libc.rlib"),
        ("d", "1", &[], "/sdk/libd.rlib"),
    ]);
    let existing = vec!["/sdk/libc.rlib".to_string()];
    assert_eq!(
        manifest.missing_artifacts(&existing, 5),
        vec!["a 1".to_string(), "d 1".to_string()]
    );
    assert_eq!(
        manifest.missing_artifacts(&existing, 1),
        vec!["a 1".to_string()]
    );
    let known = vec![false, true, false, false];
    assert_eq!(
        manifest.missing_among(&known, &existing, 5),
        vec!["b 1".to_string()]
    );
}

#[test]
fn fields_are_told_apart() {
    assert!(looks_like_path("a/b"));
    assert!(looks_like_path("a\\b"));
    assert!(looks_like_path("liba.rlib"));
    assert!(looks_like_path("liba.rmeta"));
    assert!(!looks_like_path("std,alloc"));
    assert_eq!(parse_features("-").len(), 0);
    let features = parse_features("std,,alloc,std");
    assert_eq!(features.len(), 2);
    assert!(features.contains(&"alloc".to_string()));
    assert!(features.contains(&"std".to_string()));
}

#[test]
fn errors_say_what_failed() {
    assert_eq!(PlanError::Io("gone".to_string()).message(), "io error: gone");
    assert_eq!(
        PlanError::Cargo("no lock".to_string()).message(),
        "cargo failed: no lock"
    );
    assert_eq!(
        PlanError::Parse("line".to_string()).message(),
        "could not parse: line"
    );
}

#[test]
fn odd_package_ids_name_nothing() {
    assert_eq!(package_id_version("no fragment"), None);
    assert_eq!(package_id_raw_name("no fragment"), None);
    assert_eq!(package_id_version("a#b#c@1@2"), Some("2"));
    assert_eq!(package_id_raw_name("a#b#c@1@2").as_deref(), Some("c@1"));
    assert_eq!(package_id_name("plain#1").as_deref(), Some("plain"));
}

#[test]
fn each_host_has_its_rule_for_absolute_paths() {
    assert!(absolute_path(true, "/sdk/a.rlib"));
    assert!(!absolute_path(true, "C:/sdk/a.rlib"));
    assert!(!absolute_path(true, ""));
    assert!(absolute_path(false, "C:/sdk/a.rlib"));
    assert!(absolute_path(false, "c:\\sdk\\a.rlib"));
    assert!(absolute_path(false, "\\\\server\\share"));
    assert!(absolute_path(false, "\\\\server\\share\\a.rlib"));
    assert!(!absolute_path(false, "/:/a.rlib"));
    assert!(!absolute_path(false, "c:temp"));
    assert!(!absolute_path(false, "\\temp"));
    assert!(!absolute_path(false, "/sdk/a.rlib"));
    assert!(!absolute_path(false, "liba.rlib"));
}

/// Of two artifacts that are gone, the one the host calls absolute at least.
#[test]
fn a_missing_artifact_is_reported_on_every_host() {
    let manifest = manifest_of(&[
        ("a", "1", &[], "/sdk/a.rlib"),
        ("b", "1", &[], "C:/sdk/a.rlib"),
    ]);
    assert_eq!(manifest.absolute_artifacts().iter().filter(|a| **a).count(), 1);
    assert_eq!(manifest.missing_artifacts(&vec![], 3).len(), 1);
}
