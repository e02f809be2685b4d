use jackdaw_build::error::PlanError;
use jackdaw_build::generate::{
    build_command, closure_from_text, in_triple_dir, link_paths_from_messages,
    manifest_from_messages, parse_messages, sdk_runtime_closure, tree_command,
};
use jackdaw_build::link_paths::{link_paths_path, read_link_paths, write_link_paths};
use jackdaw_build::manifest::{Features, SdkManifest};

const GLAM: &str = "{\"reason\":\"compiler-artifact\",\"package_id\":\"registry+x#glam@0.32.1\",\
    \"target\":{\"name\":\"glam\",\"kind\":[\"lib\"]},\"features\":[\"std\",\"bytemuck\"],\
    \"filenames\":[\"/t/x86/deps/libglam.rmeta\",\"/t/x86/deps/libglam.rlib\"]}";

const SCRIPT: &str = "{\"reason\":\"build-script-executed\",\"linked_paths\":[\"native=/b\",\"/a\",7]}";

fn texts(list: &[&str]) -> Vec<String> {
    list.iter().map(|t| t.to_string()).collect()
}

/// Cargo emits native separators, so the triple-dir filter that selects
/// target-side artifacts has to match a Windows path too.
#[test]
fn the_triple_dir_filter_matches_native_separators() {
    let triple = "/x86_64-pc-windows-msvc/";

    assert!(in_triple_dir(
        r"C:\cache\build\target\x86_64-pc-windows-msvc\release\build\bevy_ecs\abc\out\libbevy_ecs-abc.rlib",
        triple
    ));
    assert!(in_triple_dir(
        "/home/u/build/target/x86_64-pc-windows-msvc/release/deps/libbevy_ecs-abc.rlib",
        triple
    ));
    // Host-side units live outside the triple dir and must not match: they
    // are built for the build host, not the target.
    assert!(!in_triple_dir(
        r"C:\cache\build\target\release\build\proc-macro2\abc\out\libproc_macro2-abc.rlib",
        triple
    ));
}

#[test]
fn the_closure_is_read_from_cargo_tree() {
    let text = b"jackdaw_sdk v0.1.0 (/ws)\nbevy-ecs v0.18.0\n\nglam\nserde 1.0\nglam v0.32.1 (*)\n";
    match sdk_runtime_closure(true, text) {
        Ok(closure) => {
            assert_eq!(closure.len(), 3);
            assert!(closure.contains(&("bevy_ecs".to_string(), "0.18.0".to_string())));
            assert!(closure.contains(&("glam".to_string(), "0.32.1".to_string())));
            assert!(closure.contains(&("jackdaw_sdk".to_string(), "0.1.0".to_string())));
        }
        Err(_) => panic!("cargo tree succeeded"),
    }
    match sdk_runtime_closure(false, text) {
        Err(PlanError::Cargo(m)) => assert_eq!(m, "cargo tree failed"),
        _ => panic!("cargo tree failed"),
    }
}

/// Bytes that are not UTF-8 do not stop the lines around them.
#[test]
fn broken_bytes_are_replaced() {
    match sdk_runtime_closure(true, b"gl\xffam v1.0.0\nserde v2.0.0\n") {
        Ok(closure) => {
            assert_eq!(closure.len(), 2);
            assert!(closure.contains(&("gl\u{fffd}am".to_string(), "1.0.0".to_string())));
            assert!(closure.contains(&("serde".to_string(), "2.0.0".to_string())));
        }
        Err(_) => panic!("cargo tree succeeded"),
    }
}

#[test]
fn a_manifest_is_made_from_build_messages() {
    let closure = closure_from_text("glam v0.32.1\nserde_derive v1.0.0\nhost v1.0.0\nmeta v1.0.0\n");
    let mut text = String::new();
    text.push_str("   Compiling glam\n");
    text.push_str(GLAM);
    text.push('\n');
    // A proc macro, a crate outside the closure, a host-side unit.
    text.push_str("{\"reason\":\"compiler-artifact\",\"package_id\":\"r#serde_derive@1.0.0\",\"target\":{\"name\":\"serde_derive\",\"kind\":[\"proc-macro\"]},\"filenames\":[\"/t/x86/libserde_derive.rlib\"]}\n");
    text.push_str("{\"reason\":\"compiler-artifact\",\"package_id\":\"r#other@1.0.0\",\"target\":{\"name\":\"other\",\"kind\":[\"lib\"]},\"filenames\":[\"/t/x86/libother.rlib\"]}\n");
    text.push_str("{\"reason\":\"compiler-artifact\",\"package_id\":\"r#host@1.0.0\",\"target\":{\"name\":\"host\",\"kind\":[\"lib\"]},\"filenames\":[\"/t/release/libhost.rlib\"]}\n");
    // Metadata where there is no library.
    text.push_str("{\"reason\":\"compiler-artifact\",\"package_id\":\"r#meta@1.0.0\",\"target\":{\"name\":\"meta\",\"kind\":[\"lib\"]},\"filenames\":[\"\\\\t\\\\x86\\\\libmeta.rmeta\"]}\n");
    text.push_str(SCRIPT);
    match SdkManifest::generate(true, text.as_bytes(), &closure, "x86") {
        Ok(made) => {
            assert_eq!(made.manifest.len(), 2);
            assert_eq!(
                made.manifest.artifact("glam", "0.32.1"),
                Some("/t/x86/deps/libglam.rlib")
            );
            assert_eq!(
                made.manifest.artifact("meta", "1.0.0"),
                Some("\\t\\x86\\libmeta.rmeta")
            );
            let wanted = Features::new().insert("bytemuck".to_string());
            assert!(made.manifest.covers_features("glam", "0.32.1", &wanted));
            assert_eq!(made.link_paths.list(), texts(&["/a", "native=/b"]));
        }
        Err(_) => panic!("the build succeeded"),
    }
    match SdkManifest::generate(false, text.as_bytes(), &closure, "x86") {
        Err(PlanError::Cargo(m)) => assert_eq!(m, "SDK build for manifest generation failed"),
        _ => panic!("the build failed"),
    }
}

/// A later message for a crate replaces an earlier one.
#[test]
fn the_last_message_wins() {
    let closure = closure_from_text("glam v0.32.1");
    let mut text = String::new();
    text.push_str(GLAM);
    text.push('\n');
    text.push_str(&GLAM.replace("deps", "new"));
    let docs = parse_messages(&text);
    assert_eq!(docs.len(), 2);
    let manifest = manifest_from_messages(&docs, &closure, "/x86/");
    assert_eq!(manifest.len(), 1);
    assert_eq!(
        manifest.artifact("glam", "0.32.1"),
        Some("/t/x86/new/libglam.rlib")
    );
    assert_eq!(link_paths_from_messages(&docs).len(), 0);
}

#[test]
fn the_profile_of_the_library_is_built() {
    assert_eq!(
        SdkManifest::generate_dev("/ws/target/x86/release/libjackdaw_sdk.so"),
        texts(&["-p", "jackdaw", "--features", "dylib", "--release"])
    );
    assert_eq!(
        SdkManifest::generate_dev("/ws/target/x86/debug/libjackdaw_sdk.so"),
        texts(&["-p", "jackdaw", "--features", "dylib"])
    );
    assert_eq!(
        SdkManifest::generate_dev("ws//release/.//libjackdaw_sdk.so").len(),
        5
    );
    assert_eq!(
        SdkManifest::generate_dev("/release/../libjackdaw_sdk.so").len(),
        4
    );
    assert_eq!(SdkManifest::generate_dev("/").len(), 4);
    assert_eq!(
        SdkManifest::generate_dev("/release/libjackdaw_sdk.so").len(),
        5
    );
    assert_eq!(
        SdkManifest::generate_dev("/release/x86/libjackdaw_sdk.so").len(),
        4
    );
    assert_eq!(
        SdkManifest::generate_dev("libjackdaw_sdk.so"),
        texts(&["-p", "jackdaw", "--features", "dylib"])
    );
}

#[test]
fn cargo_is_asked_for_the_closure_and_the_build() {
    assert_eq!(
        tree_command(),
        texts(&["tree", "-p", "jackdaw_sdk", "-e", "normal,no-proc-macro", "--prefix", "none"])
    );
    assert_eq!(
        build_command(&texts(&["-p", "jackdaw"]), "x86"),
        texts(&["build", "-p", "jackdaw", "--target", "x86", "--message-format=json"])
    );
}

#[test]
fn link_paths_are_kept_beside_the_manifest() {
    assert_eq!(
        link_paths_path("/sdk/x86/manifest.txt").replace('\\', "/"),
        "/sdk/x86/jackdaw_sdk_link_paths.txt"
    );
    assert_eq!(link_paths_path("manifest.txt"), "jackdaw_sdk_link_paths.txt");
    assert_eq!(link_paths_path("/manifest.txt"), "/jackdaw_sdk_link_paths.txt");
    assert_eq!(
        link_paths_path("a//b/./manifest.txt/").replace('\\', "/"),
        "a//b/jackdaw_sdk_link_paths.txt"
    );
    assert_eq!(
        link_paths_path("sdk/..").replace('\\', "/"),
        "sdk/../jackdaw_sdk_link_paths.txt"
    );
    assert_eq!(
        link_paths_path("./manifest.txt").replace('\\', "/"),
        "./jackdaw_sdk_link_paths.txt"
    );
    assert_eq!(
        link_paths_path("/sdk./manifest.txt").replace('\\', "/"),
        "/sdk./jackdaw_sdk_link_paths.txt"
    );
}

#[test]
fn link_paths_round_trip_through_their_file() {
    let paths = Features::new()
        .insert("native=/b".to_string())
        .insert("/a".to_string());
    let text = write_link_paths(None, &paths);
    assert_eq!(text.as_deref(), Some("/a\nnative=/b\n"));
    assert_eq!(read_link_paths(text.as_deref()), texts(&["/a", "native=/b"]));
    // An up-to-date file is not written again.
    assert_eq!(write_link_paths(Some("/a\nnative=/b\n"), &paths), None);
    assert_eq!(
        write_link_paths(Some("/a\n"), &paths).as_deref(),
        Some("/a\nnative=/b\n")
    );
    assert_eq!(read_link_paths(Some("  /a \r\n\n \t\n/b")), texts(&["/a", "/b"]));
    assert_eq!(read_link_paths(None), texts(&[]));
}
