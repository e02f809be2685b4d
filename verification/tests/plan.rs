use jackdaw_build::error::PlanError;
use jackdaw_build::extern_map::load_extern_map;
use jackdaw_build::json::{parse_bytes, parse_text, Json};
use jackdaw_build::manifest::{Features, SdkManifest};
use jackdaw_build::plan::{
    align_lock, cargo_metadata, metadata_command, plan_edges, plan_is_stale, plan_shortfalls,
    render_plan, resolve_artifact, resolve_known, write_plan,
};

fn feature_set(features: &[&str]) -> Features {
    let mut set = Features::new();
    for f in features {
        set = set.insert(f.to_string());
    }
    set
}

fn manifest_of(entries: &[(&str, &str, &[&str], &str)]) -> SdkManifest {
    let mut manifest = SdkManifest::new();
    for (name, version, features, path) in entries {
        manifest = manifest.insert(name, version, feature_set(features), path);
    }
    manifest
}

fn document(text: &str) -> Json {
    match parse_text(text) {
        Some(doc) => doc,
        None => panic!("not a document: {text}"),
    }
}

const GRAPH: &str = "{\"resolve\":{\"nodes\":[\
    {\"id\":\"path+file:///u/my-game#0.1.0\",\"deps\":[\
        {\"name\":\"glam\",\"pkg\":\"r#glam@0.32.1\"},\
        {\"name\":\"rand_old\",\"pkg\":\"r#rand@0.8.0\"},\
        {\"name\":\"broken\",\"pkg\":\"no fragment\"},\
        {\"name\":\"windows\",\"pkg\":\"r#windows-sys@0.60.2\"}],\"features\":[]},\
    {\"id\":\"r#rand@0.8.0\",\"deps\":[\
        {\"name\":\"glam\",\"pkg\":\"r#glam@0.32.1\"},\
        {\"pkg\":\"r#glam@0.32.1\"}]},\
    {\"id\":\"r#windows-sys@0.60.2\",\"deps\":[],\"features\":[\"Win32\",\"Win32_UI\"]},\
    {\"id\":\"r#glam@0.32.1\",\"features\":[\"std\"]}]}}";

fn sdk() -> SdkManifest {
    manifest_of(&[
        ("glam", "0.32.1", &["std"], "libglam-abc.rlib"),
        ("rand", "0.9.0", &[], "librand.rlib"),
        ("windows_sys", "0.60.2", &["Win32"], "/sdk/libws.rlib"),
    ])
}

#[test]
fn resolve_artifact_absolute_passthrough_basename_rebases() {
    let deps = "/opt/jackdaw/sdk/x86_64/deps";
    // Dev manifests store absolute paths: used verbatim.
    assert_eq!(
        resolve_artifact("/ws/target/x86_64/release/deps/libglam-abc.rlib", deps),
        "/ws/target/x86_64/release/deps/libglam-abc.rlib"
    );
    // A shipped manifest stores bare names, rebased onto the install's
    // directory. Compared with the host's separators normalized away.
    assert_eq!(
        resolve_artifact("libglam-abc.rlib", deps).replace('\\', "/"),
        "/opt/jackdaw/sdk/x86_64/deps/libglam-abc.rlib"
    );
}

#[test]
fn a_relative_artifact_is_rebased_whole() {
    assert_eq!(
        resolve_artifact("sub/libglam.rlib", "/deps").replace('\\', "/"),
        "/deps/sub/libglam.rlib"
    );
    assert_eq!(resolve_artifact("/ws/libglam.rlib", ""), "/ws/libglam.rlib");
}

#[test]
fn a_known_answer_decides_how_an_artifact_resolves() {
    assert_eq!(resolve_known("liba.rlib", true, "/deps"), "liba.rlib");
    assert_eq!(
        resolve_known("liba.rlib", false, "/deps/").replace('\\', "/"),
        "/deps/liba.rlib"
    );
}

/// One line per edge whose resolved version the SDK holds, keyed on the
/// consumer's exact version; a version it does not hold redirects nowhere.
#[test]
fn a_plan_lists_the_edges_that_redirect() {
    let plan = write_plan(&document(GRAPH), &sdk(), "/deps");
    assert_eq!(plan.edges, 3);
    assert_eq!(
        plan.contents.replace('\\', "/"),
        "my_game@0.1.0:glam=/deps/libglam-abc.rlib\n\
         my_game@0.1.0:windows=/sdk/libws.rlib\n\
         rand@0.8.0:glam=/deps/libglam-abc.rlib\n"
    );
    assert_eq!(
        plan.shortfalls,
        vec![("windows_sys 0.60.2".to_string(), "Win32_UI".to_string())]
    );
}

#[test]
fn a_covered_crate_is_not_reported() {
    let covered = manifest_of(&[
        ("glam", "0.32.1", &["std", "serde"], "libglam.rlib"),
        ("windows_sys", "0.60.2", &["Win32", "Win32_UI"], "libws.rlib"),
    ]);
    assert_eq!(plan_shortfalls(&document(GRAPH), &covered), vec![]);
    let bare = manifest_of(&[
        ("windows_sys", "0.60.2", &[], "libws.rlib"),
        ("glam", "0.32.1", &[], "libglam.rlib"),
    ]);
    assert_eq!(
        plan_shortfalls(&document(GRAPH), &bare),
        vec![
            ("glam 0.32.1".to_string(), "std".to_string()),
            ("windows_sys 0.60.2".to_string(), "Win32,Win32_UI".to_string()),
        ]
    );
    // The features do not decide what redirects.
    assert_eq!(plan_edges(&document(GRAPH), &bare).len(), 3);
    assert_eq!(plan_edges(&document(GRAPH), &covered).len(), 3);
}

#[test]
fn a_document_without_a_graph_has_no_edges() {
    let plan = write_plan(&document("{\"resolve\":null}"), &sdk(), "/deps");
    assert_eq!(plan.edges, 0);
    assert_eq!(plan.contents, "");
    assert_eq!(plan.shortfalls, vec![]);
}

/// What the plan was written from is what the wrapper reads.
#[test]
fn a_plan_is_read_back() {
    let edges = plan_edges(&document(GRAPH), &sdk());
    let resolved = vec!["/d/a=1.rlib".to_string(), "/d/b.rlib".to_string(), "/d/c.rlib".to_string()];
    let text = render_plan(&edges, &resolved);
    let map = load_extern_map(Some(&text));
    assert_eq!(map.edges.len(), 3);
    assert_eq!(map.edge_artifact("my_game@0.1.0", "glam"), Some("/d/a=1.rlib"));
    assert_eq!(map.edge_artifact("my_game@0.1.0", "windows"), Some("/d/b.rlib"));
    assert_eq!(map.edge_artifact("rand@0.8.0", "glam"), Some("/d/c.rlib"));
    assert_eq!(map.edge_artifact("rand@0.9.0", "glam"), None);
    assert_eq!(map.edge_artifact("rand", "glam"), None);
}

#[test]
fn the_first_edge_listed_is_taken() {
    let map = load_extern_map(Some("a@1:x=/one\nnonsense\nb=2\na@1:x=/two\r\n:=\n"));
    assert_eq!(map.edges.len(), 3);
    assert_eq!(map.edge_artifact("a@1", "x"), Some("/one"));
    assert_eq!(map.edges[1].artifact, "/two");
    assert_eq!(map.edge_artifact("", ""), Some(""));
    assert_eq!(load_extern_map(None).edges.len(), 0);
}

#[test]
fn a_plan_is_written_only_when_it_changed() {
    assert!(plan_is_stale(None, ""));
    assert!(!plan_is_stale(Some(b""), ""));
    assert!(!plan_is_stale(Some("a\u{e9}\n".as_bytes()), "a\u{e9}\n"));
    assert!(plan_is_stale(Some(b"a\n"), "b\n"));
    assert!(plan_is_stale(Some(b"a"), "a\n"));
}

/// Closure crates are pinned to the one version the SDK holds, under the name
/// cargo spells.
#[test]
fn drifted_packages_are_pinned() {
    let doc = document(
        "{\"packages\":[\
            {\"name\":\"serde-json\",\"version\":\"1.0.150\"},\
            {\"name\":\"windows-sys\",\"version\":\"0.59.0\"},\
            {\"name\":\"glam\",\"version\":\"0.32.1\"},\
            {\"name\":\"bitflags\",\"version\":\"2.5.0\"},\
            {\"name\":\"bitflags\",\"version\":\"2.6.0\"},\
            {\"name\":\"unknown\",\"version\":\"1.0.0\"},\
            {\"version\":\"1.0.0\"}]}",
    );
    let manifest = manifest_of(&[
        ("serde_json", "1.0.149", &[], "/a"),
        ("windows_sys", "0.52.0", &[], "/b"),
        ("windows_sys", "0.60.2", &[], "/c"),
        ("glam", "0.32.1", &[], "/d"),
        ("bitflags", "2.4.0", &[], "/e"),
    ]);
    let drifted = align_lock(&doc, &manifest);
    assert_eq!(drifted.len(), 3);
    // Each version of a crate that is in the lock.
    assert_eq!(drifted[0].name, "bitflags");
    assert_eq!(drifted[0].from, "2.5.0");
    assert_eq!(drifted[0].to, "2.4.0");
    assert_eq!(
        drifted[1].update_command(),
        vec!["update", "-p", "bitflags@2.6.0", "--precise", "2.4.0"]
    );
    assert_eq!(
        drifted[2].update_command(),
        vec!["update", "-p", "serde-json@1.0.150", "--precise", "1.0.149"]
    );
    assert_eq!(align_lock(&document("[]"), &manifest).len(), 0);
}

#[test]
fn metadata_is_read_or_refused() {
    assert_eq!(metadata_command(), vec!["metadata", "--format-version", "1"]);
    match cargo_metadata(true, b"{\"packages\":[]}", "/ws") {
        Ok(doc) => assert!(doc.member("packages").is_some()),
        Err(_) => panic!("the output is a document"),
    }
    match cargo_metadata(false, b"{}", "/ws") {
        Err(PlanError::Cargo(m)) => assert_eq!(m, "cargo metadata failed in /ws"),
        _ => panic!("cargo failed"),
    }
    match cargo_metadata(true, b"{", "/ws") {
        Err(PlanError::Parse(m)) => assert_eq!(
            m,
            "cargo metadata output: EOF while parsing an object at line 1 column 1"
        ),
        _ => panic!("the output is no document"),
    }
}

#[test]
fn documents_are_read_layer_by_layer() {
    let doc = document("{\"a\":[true,null,1.5,\"x\",{\"b\":\"y\"}],\"c\":\"d\"}");
    match doc.member("a").and_then(|j| j.list()) {
        Some(items) => {
            assert_eq!(items.len(), 5);
            assert!(matches!(items[0], Json::Bool(true)));
            assert!(matches!(items[1], Json::Null));
            assert!(matches!(items[2], Json::Number));
            assert_eq!(items[3].text().map(|s| s.as_str()), Some("x"));
            assert_eq!(
                items[4].member("b").and_then(|j| j.text()).map(|s| s.as_str()),
                Some("y")
            );
        }
        None => panic!("a list"),
    }
    assert_eq!(doc.member("c").and_then(|j| j.text()).map(|s| s.as_str()), Some("d"));
    assert!(doc.member("d").is_none());
    assert!(parse_text("{]").is_none());
    assert!(parse_bytes(b"[1]").is_ok());
}
