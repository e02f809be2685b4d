use jackdaw_build::argfile::{argfile_contents, Expansion};
use jackdaw_build::extern_map::load_extern_map;
use jackdaw_build::os_text::OsText;
use jackdaw_build::redirect::{
    choose_companion, companion_probe, metadata_companion, redirect_args, redirected_values,
    rewrite_extern,
};
use jackdaw_build::wrapper::{
    assemble_args, consumer_key, exit_code, is_on, probes, rewrite_args, sdk_targets,
    split_command, Vars,
};

fn os(s: &str) -> OsText {
    OsText::new(s)
}

fn raw() -> OsText {
    OsText::Raw { bytes: vec![b'a', 0xff], lossy: "a\u{fffd}".to_string() }
}

fn args(list: &[&str]) -> Vec<OsText> {
    list.iter().map(|s| os(s)).collect()
}

fn shown(list: &[OsText]) -> Vec<String> {
    list.iter().map(|w| w.lossy()).collect()
}

fn no_vars() -> Vars {
    Vars {
        dylib: None,
        dylib_rmeta: None,
        deps: None,
        dep_dirs: vec![],
        link_paths: None,
        host_deps: None,
        static_mode: None,
        bevy_rlib: None,
        api_rlib: None,
        package_name: None,
        package_version: None,
        plan: None,
    }
}

fn shared_vars() -> Vars {
    let mut vars = no_vars();
    vars.deps = Some(os("/sdk/deps"));
    vars.dylib = Some(os("/sdk/libjackdaw_sdk.so"));
    vars.package_name = Some(os("my-game"));
    vars.package_version = Some(os("0.1.0"));
    vars.plan = Some("my_game@0.1.0:glam=/sdk/deps/libglam.rlib\nrand@0.8.0:serde=/sdk/s.rlib\n".to_string());
    vars
}

fn rewritten(list: &[&str], is_primary: bool, vars: &Vars, files: &[&str]) -> Vec<String> {
    match rewrite_args(&args(list), is_primary, vars, &args(files)) {
        Ok(out) => shown(&out),
        Err(e) => panic!("{e}"),
    }
}

fn companion(value: &str, target: &str, rmeta: Option<&OsText>, files: &[&str]) -> Option<String> {
    metadata_companion(&os(value), &os(target), rmeta, &args(files)).map(|w| w.lossy())
}

/// A plan artifact can be a stub whose real metadata is the `.rmeta` beside
/// it.
#[test]
fn a_plan_artifact_takes_its_sibling_rmeta() {
    let files = ["/d/libbevy_render-abc.rlib", "/d/libbevy_render-abc.rmeta"];
    assert_eq!(
        companion("bevy_render=/d/libbevy_render-abc.rlib", "", None, &files),
        Some("bevy_render=/d/libbevy_render-abc.rmeta".to_string())
    );
}

/// Embedded metadata has no companion, and inventing one would hand rustc a
/// path that does not resolve.
#[test]
fn an_embedded_artifact_has_no_companion() {
    assert_eq!(companion("glam=/d/libglam-abc.rlib", "", None, &["/d/libglam-abc.rlib"]), None);
    // The `.rmeta` half of a pair is already metadata.
    let files = ["/d/libglam-abc.rlib", "/d/libglam-abc.rmeta"];
    assert_eq!(companion("glam=/d/libglam-abc.rmeta", "", None, &files), None);
}

/// The SDK library is the one artifact whose `.rmeta` is not beside it, so
/// the path has to be passed in.
#[test]
fn the_dylib_takes_the_path_it_is_given() {
    let dylib = "/d/jackdaw_sdk.dll";
    let rmeta = os("/d/build/jackdaw_sdk/abc/out/libjackdaw_sdk.rmeta");
    let files = [dylib, "/d/build/jackdaw_sdk/abc/out/libjackdaw_sdk.rmeta"];
    assert_eq!(
        companion("bevy=/d/jackdaw_sdk.dll", dylib, Some(&rmeta), &files),
        Some("bevy=/d/build/jackdaw_sdk/abc/out/libjackdaw_sdk.rmeta".to_string())
    );

    // Without it there is nothing beside the library to fall back to.
    assert_eq!(companion("bevy=/d/jackdaw_sdk.dll", dylib, None, &files), None);
}

#[test]
fn other_values_have_no_companion() {
    assert!(metadata_companion(&raw(), &os(""), None, &vec![]).is_none());
    assert_eq!(companion("glam", "", None, &["glam.rmeta"]), None);
    // Another artifact does not take the library's metadata.
    let rmeta = os("/d/sdk.rmeta");
    assert_eq!(companion("glam=/d/libglam.rlib", "/d/sdk.so", Some(&rmeta), &[]), None);
    // The library does, however its path is written.
    assert_eq!(
        companion("bevy=/d//./sdk.so", "/d/sdk.so", Some(&rmeta), &[]),
        Some("bevy=/d/sdk.rmeta".to_string())
    );
    assert_eq!(companion("bevy=./d/sdk.so", "d/sdk.so", Some(&rmeta), &[]), None);
    // Another of the same name does not.
    assert_eq!(companion("bevy=/e/sdk.so", "/d/sdk.so", Some(&rmeta), &[]), None);
    // Nor does any where the library's path is not text.
    assert!(metadata_companion(&os("glam=/d/a.so"), &raw(), Some(&rmeta), &vec![]).is_none());
}

#[test]
fn a_companion_follows_from_what_the_host_says() {
    let rmeta = raw();
    let chosen = choose_companion("bevy", &Some("so".to_string()), true, "x", Some(&rmeta), &vec![]);
    match chosen {
        Some(OsText::Raw { bytes, lossy }) => {
            assert_eq!(bytes, b"bevy=a\xff".to_vec());
            assert_eq!(lossy, "bevy=a\u{fffd}");
        }
        _ => panic!("the given path"),
    }
    assert!(choose_companion("a", &Some("rmeta".to_string()), true, "x", Some(&rmeta), &args(&["x"])).is_none());
    let chosen = choose_companion("a", &None, false, "x", Some(&rmeta), &args(&["x"]));
    assert_eq!(chosen.map(|w| w.lossy()), Some("a=x".to_string()));
}

#[test]
fn metadata_is_looked_for_beside_the_artifact() {
    assert_eq!(
        companion_probe(&os("glam=/d/libglam.rlib")).map(|w| w.lossy()),
        Some("/d/libglam.rmeta".to_string())
    );
    assert_eq!(
        companion_probe(&os("glam=libglam")).map(|w| w.lossy()),
        Some("libglam.rmeta".to_string())
    );
    assert_eq!(
        companion_probe(&os("glam=/opt/sdk.v1/libglam")).map(|w| w.lossy()),
        Some("/opt/sdk.v1/libglam.rmeta".to_string())
    );
    assert_eq!(
        companion_probe(&os("glam=/d/.hidden")).map(|w| w.lossy()),
        Some("/d/.hidden.rmeta".to_string())
    );
    assert_eq!(
        companion_probe(&os("glam=/d/a.b.")).map(|w| w.lossy()),
        Some("/d/a.b.rmeta".to_string())
    );
    assert_eq!(companion_probe(&os("glam=/")).map(|w| w.lossy()), Some("/".to_string()));
    assert!(companion_probe(&os("glam=/d/libglam.rmeta")).is_none());
    assert!(companion_probe(&os("glam")).is_none());
    assert!(companion_probe(&raw()).is_none());
}

#[test]
fn values_redirect_to_the_facade_or_along_the_plan() {
    let map = load_extern_map(Some("a@1:glam=/sdk/libglam.rlib\na@1:bevy=/nowhere\n"));
    let target = os("/sdk/lib.so");
    let to = |value: &str, consumer: &str| {
        rewrite_extern(&os(value), &target, &map, consumer).map(|w| w.lossy())
    };
    assert_eq!(to("bevy=/x.rlib", "a@1"), Some("bevy=/sdk/lib.so".to_string()));
    assert_eq!(to("bevy=/x.rlib", ""), Some("bevy=/sdk/lib.so".to_string()));
    assert_eq!(to("glam=/x=y.rlib", "a@1"), Some("glam=/sdk/libglam.rlib".to_string()));
    assert_eq!(to("glam=/x.rlib", "a@2"), None);
    assert_eq!(to("serde=/x.rlib", "a@1"), None);
    assert_eq!(to("proc_macro", "a@1"), None);
    assert_eq!(to("bevy=/sdk/lib.so", "a@1"), Some("bevy=/sdk/lib.so".to_string()));
    assert!(rewrite_extern(&raw(), &target, &map, "a@1").is_none());
    // Without a plan only the facade redirects.
    let none = load_extern_map(None);
    assert!(rewrite_extern(&os("glam=/x"), &target, &none, "a@1").is_none());
    assert!(rewrite_extern(&os("bevy=/x"), &target, &none, "a@1").is_some());
}

/// Both halves of a pair redirect to one artifact: the repeat is dropped and
/// the companions follow the rest.
#[test]
fn a_pair_of_flags_becomes_one_with_its_companion() {
    let map = load_extern_map(Some("a@1:glam=/sdk/libglam.rlib\n"));
    let list = args(&[
        "-O", "--extern", "glam=/x.rlib", "--extern", "glam=/x.rmeta", "-O", "--extern",
        "serde=/s.rlib", "--extern", "serde=/s.rlib", "--extern",
    ]);
    let values = redirected_values(&list, &os("/t"), &map, "a@1");
    assert_eq!(shown(&values), vec!["glam=/sdk/libglam.rlib", "glam=/sdk/libglam.rlib"]);
    let found = vec![Some(os("glam=/sdk/libglam.rmeta")), Some(os("glam=/sdk/libglam.rmeta"))];
    assert_eq!(
        shown(&redirect_args(&list, &os("/t"), &map, "a@1", &found)),
        vec![
            "-O", "--extern", "glam=/sdk/libglam.rlib", "-O", "--extern", "serde=/s.rlib",
            "--extern", "--extern", "glam=/sdk/libglam.rmeta",
        ]
    );
}

#[test]
fn host_side_units_pass_through() {
    assert_eq!(
        rewritten(&["--extern", "bevy=/x.rlib", "--extern", "bevy=/x.rlib"], true, &shared_vars(), &[]),
        vec!["--extern", "bevy=/x.rlib", "--extern", "bevy=/x.rlib"]
    );
    assert_eq!(probes(&args(&["--extern", "bevy=/x.rlib"]), &shared_vars()).len(), 0);
}

#[test]
fn a_target_side_unit_is_rewritten() {
    let vars = shared_vars();
    assert_eq!(
        rewritten(
            &["--target", "x86", "--extern", "bevy=/x.rlib", "--extern", "glam=/g.rlib"],
            false,
            &vars,
            &["/sdk/deps/libglam.rmeta"],
        ),
        vec![
            "--target", "x86", "--extern", "bevy=/sdk/libjackdaw_sdk.so", "--extern",
            "glam=/sdk/deps/libglam.rlib", "--extern", "glam=/sdk/deps/libglam.rmeta", "-L",
            "dependency=/sdk/deps", "-C", "prefer-dynamic",
        ]
    );
    // Nothing to redirect: only the search path is added.
    assert_eq!(
        rewritten(&["--target", "x86", "--extern", "serde=/s.rlib"], false, &vars, &[]),
        vec!["--target", "x86", "--extern", "serde=/s.rlib", "-L", "dependency=/sdk/deps"]
    );
}

#[test]
fn the_primary_package_gets_the_injected_crate() {
    let mut vars = shared_vars();
    vars.dylib_rmeta = Some(os("/b/sdk.rmeta"));
    assert_eq!(
        rewritten(&["--target", "x86"], true, &vars, &["/b/sdk.rmeta"]),
        vec![
            "--target", "x86", "--extern", "jackdaw_api=/sdk/libjackdaw_sdk.so", "--extern",
            "jackdaw_api=/b/sdk.rmeta", "-L", "dependency=/sdk/deps", "-C", "prefer-dynamic",
        ]
    );
    // Metadata that is not a file is not passed.
    assert_eq!(
        rewritten(&["--target", "x86"], true, &vars, &[]),
        vec![
            "--target", "x86", "--extern", "jackdaw_api=/sdk/libjackdaw_sdk.so", "-L",
            "dependency=/sdk/deps", "-C", "prefer-dynamic",
        ]
    );
}

#[test]
fn the_static_model_links_rlibs() {
    let mut vars = shared_vars();
    vars.static_mode = Some(os("1"));
    vars.bevy_rlib = Some(os("/sdk/libbevy.rlib"));
    vars.api_rlib = Some(os("/sdk/libapi.rlib"));
    assert_eq!(
        rewritten(&["--target", "x86", "--extern", "bevy=/x"], true, &vars, &["/sdk/libapi.rmeta"]),
        vec![
            "--target", "x86", "--extern", "bevy=/sdk/libbevy.rlib", "--extern",
            "jackdaw_api=/sdk/libapi.rlib", "--extern", "jackdaw_api=/sdk/libapi.rmeta", "-L",
            "dependency=/sdk/deps",
        ]
    );
}

/// The metadata that is given serves the library only: an rlib takes what is
/// beside it.
#[test]
fn the_static_model_takes_sibling_metadata() {
    let mut vars = no_vars();
    vars.deps = Some(os("/d"));
    vars.static_mode = Some(os("1"));
    vars.bevy_rlib = Some(os("/k/b.rlib"));
    vars.api_rlib = Some(os("/k/b.rlib"));
    vars.dylib_rmeta = Some(os("/m.rmeta"));
    let list = ["--extern", "bevy=/t/b.rlib", "--target", "x"];
    assert_eq!(
        rewritten(&list, false, &vars, &["/m.rmeta", "/k/b.rmeta"]),
        vec![
            "--extern", "bevy=/k/b.rlib", "--target", "x", "--extern", "bevy=/k/b.rmeta", "-L",
            "dependency=/d",
        ]
    );
    assert_eq!(
        rewritten(&["--target", "x"], true, &vars, &["/m.rmeta"]),
        vec!["--target", "x", "--extern", "jackdaw_api=/k/b.rlib", "-L", "dependency=/d"]
    );
    assert_eq!(shown(&probes(&args(&list), &vars)), vec!["/k/b.rmeta", "/k/b.rmeta"]);
}

#[test]
fn search_paths_follow_in_order() {
    let mut vars = shared_vars();
    vars.host_deps = Some(os("/host"));
    vars.dep_dirs = args(&["/one", "/two"]);
    vars.link_paths = Some(os("native=/n\n  \n/bare\r\n"));
    vars.plan = None;
    assert_eq!(
        rewritten(&["--target", "x86"], false, &vars, &[]),
        vec![
            "--target", "x86", "-L", "dependency=/sdk/deps", "-L", "dependency=/host", "-L",
            "dependency=/one", "-L", "dependency=/two", "-L", "native=/n", "-L", "native=/bare",
        ]
    );
    vars.link_paths = Some(raw());
    vars.dep_dirs = vec![raw()];
    assert_eq!(
        rewritten(&["--target", "x86"], false, &vars, &[]),
        vec![
            "--target", "x86", "-L", "dependency=/sdk/deps", "-L", "dependency=/host", "-L",
            "dependency=a\u{fffd}",
        ]
    );
}

#[test]
fn files_to_look_for_are_listed() {
    let mut vars = shared_vars();
    vars.dylib_rmeta = Some(os("/b/sdk.rmeta"));
    assert_eq!(
        shown(&probes(&args(&["--target", "x", "--extern", "glam=/g.rlib"]), &vars)),
        vec!["/b/sdk.rmeta", "/sdk/deps/libglam.rmeta", "/sdk/libjackdaw_sdk.rmeta"]
    );
    assert_eq!(probes(&args(&["--target", "x"]), &no_vars()).len(), 0);
}

/// Files that were not asked for change nothing.
#[test]
fn other_files_do_not_matter() {
    let vars = shared_vars();
    let list = ["--target", "x", "--extern", "glam=/g.rlib"];
    let asked = shown(&probes(&args(&list), &vars));
    let mut few: Vec<&str> = asked.iter().map(|s| s.as_str()).collect();
    let small = rewritten(&list, true, &vars, &few);
    few.push("/sdk/other.rmeta");
    few.push("/g.rmeta");
    assert_eq!(rewritten(&list, true, &vars, &few), small);
}

#[test]
fn a_missing_variable_is_an_error() {
    let fails = |vars: &Vars| match rewrite_args(&args(&["-O"]), false, vars, &vec![]) {
        Err(e) => e,
        Ok(_) => panic!("something is missing"),
    };
    let mut vars = no_vars();
    assert_eq!(fails(&vars), "JACKDAW_SDK_DEPS not set; cannot point -L at deps/");
    vars.deps = Some(os("/d"));
    assert_eq!(fails(&vars), "JACKDAW_SDK_DYLIB not set; cannot redirect --extern");
    vars.static_mode = Some(os("1"));
    assert_eq!(fails(&vars), "JACKDAW_SDK_BEVY_RLIB not set in static mode");
    vars.bevy_rlib = Some(os("/b"));
    assert_eq!(fails(&vars), "JACKDAW_SDK_API_RLIB not set in static mode");
    vars.static_mode = Some(os("0"));
    vars.dylib = Some(os("/s"));
    match sdk_targets(&vars) {
        Ok(targets) => assert!(!targets.static_mode),
        Err(e) => panic!("{e}"),
    }
}

#[test]
fn companions_are_taken_as_given() {
    let vars = shared_vars();
    match sdk_targets(&vars) {
        Ok(targets) => {
            let list = args(&["--target", "x", "--extern", "bevy=/x"]);
            let out = assemble_args(&list, true, &targets, &vars, &vec![Some(os("bevy=/m"))], &None);
            assert_eq!(
                shown(&out),
                vec![
                    "--target", "x", "--extern", "bevy=/sdk/libjackdaw_sdk.so", "--extern",
                    "bevy=/m", "--extern", "jackdaw_api=/sdk/libjackdaw_sdk.so", "-L",
                    "dependency=/sdk/deps", "-C", "prefer-dynamic",
                ]
            );
        }
        Err(e) => panic!("{e}"),
    }
}

#[test]
fn the_consumer_is_named_with_its_version() {
    let mut vars = shared_vars();
    assert_eq!(consumer_key(&vars), "my_game@0.1.0");
    vars.package_version = Some(os("0.2.0"));
    assert_eq!(consumer_key(&vars), "my_game@0.2.0");
    vars.package_version = None;
    assert_eq!(consumer_key(&vars), "");
    vars.package_version = Some(raw());
    assert_eq!(consumer_key(&vars), "");
}

#[test]
fn a_switch_is_on_when_it_is_one() {
    assert!(is_on(&Some(os("1"))));
    assert!(!is_on(&Some(os("true"))));
    assert!(!is_on(&Some(raw())));
    assert!(!is_on(&None));
}

#[test]
fn a_command_line_needs_the_path_of_rustc() {
    match split_command(&args(&["wrapper"])) {
        Err(e) => assert_eq!(e, "no rustc path provided"),
        Ok(_) => panic!("no path"),
    }
    match split_command(&args(&["wrapper", "rustc", "-O", "x.rs"])) {
        Ok((rustc, rest)) => {
            assert_eq!(rustc.lossy(), "rustc");
            assert_eq!(shown(&rest), vec!["-O", "x.rs"]);
        }
        Err(e) => panic!("{e}"),
    }
}

#[test]
fn the_exit_code_is_the_low_byte() {
    assert_eq!(exit_code(Some(0)), 0);
    assert_eq!(exit_code(Some(101)), 101);
    assert_eq!(exit_code(Some(256)), 0);
    assert_eq!(exit_code(Some(-1)), 255);
    assert_eq!(exit_code(None), 1);
}

#[test]
fn arguments_are_compared_as_they_are() {
    assert!(os("a").same(&os("a")));
    assert!(!os("a").same(&raw()));
    assert!(raw().same(&raw().copy()));
    assert!(os("a").is("a"));
    assert!(raw().text().is_none());
}

fn expand(list: &[&str], files: &[(&str, &str)]) -> Vec<String> {
    let mut e = Expansion::new(&args(list));
    while let Some(path) = e.next_file() {
        let found = files.iter().find(|f| f.0 == path).map(|f| f.1);
        e.supply(found);
    }
    shown(&e.finish())
}

#[test]
fn response_files_are_expanded() {
    assert_eq!(expand(&["-O", "x.rs"], &[]), vec!["-O", "x.rs"]);
    assert_eq!(
        expand(
            &["a", "@one", "z"],
            &[("one", "b\n@two\r\nc"), ("two", "--target\nx y\n")],
        ),
        vec!["a", "b", "--target", "x y", "c", "z"]
    );
    assert_eq!(
        expand(&["@one", "@two"], &[("one", "@gone\n"), ("two", "b\n")]),
        vec!["@gone", "b"]
    );
    // One that cannot be read stays as it is.
    assert_eq!(expand(&["@gone", "@", "b"], &[("", "")]), vec!["@gone", "b"]);
}

#[test]
fn a_response_file_gives_its_arguments_back() {
    let list = ["--extern", "bevy=/a b", "", "-O"];
    let text = argfile_contents(&args(&list));
    assert_eq!(text, "--extern\nbevy=/a b\n\n-O");
    assert_eq!(expand(&["@f"], &[("f", &text)]), list.to_vec());
    assert_eq!(argfile_contents(&vec![raw()]), "a\u{fffd}");
    assert_eq!(argfile_contents(&vec![]), "");
}
