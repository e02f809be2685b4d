//! Making a manifest from what cargo reports.
//!
//! The SDK's runtime closure comes from `cargo tree`, the artifacts from the
//! JSON stream of a build. An entry is made for each crate of the closure
//! that the build compiled for the target.

use vstd::prelude::*;
use vstd::string::StringExecFns;
use vstd::utf8::{decode_utf8, valid_utf8};

use crate::error::PlanError;
use crate::host::{file_name_fact, lossy_text, parent_fact, path_file_name, path_parent, text_from_bytes, text_view};
use crate::json::{json_text, member_of, parse_text, text_items_of, text_of, trees, Json, JsonTree};
use crate::manifest::{holds, Artifact, Features, Id, SdkManifest};
use crate::order::OrderedSet;
use crate::package_id::{crate_name, id_version, package_id_version};
use crate::text::{contains_text, cut_word, has_suffix, line_list, lines, next_word, occurs, replace, replaced, same, texts, without_first};

verus! {

/// The crates of the SDK's runtime closure.
pub type Closure = OrderedSet<(String, String)>;

/// What a line of `cargo tree` names: a crate and its version, which is
/// written with a `v`.
pub open spec fn tree_entry(line: Seq<char>) -> Option<Id> {
    let (name, rest) = next_word(line);
    let (version, _) = next_word(rest);
    if name.len() > 0 && version.len() > 0 && version[0] == 'v' {
        Some((crate_name(name), version.skip(1)))
    } else {
        None
    }
}

/// The crates that the output of `cargo tree` names.
pub open spec fn tree_closure(text: Seq<char>) -> Set<Id> {
    lines(text).filter_map(|l: Seq<char>| tree_entry(l)).to_set()
}

/// What a line of `cargo tree` names.
fn parse_tree_line(line: &str) -> (r: Option<(String, String)>)
    ensures
        match tree_entry(line@) {
            Some(id) => r matches Some(k) && k@ == id,
            None => r is None,
        },
{
    let (name, rest) = cut_word(line);
    let (version, _) = cut_word(&rest);
    if name.as_str().is_empty() {
        return None;
    }
    match without_first(&version, 'v') {
        Some(version) => Some((replaced(&name, '-', '_'), version)),
        None => None,
    }
}

/// The SDK's runtime dependency closure, from the output of `cargo tree`.
pub fn sdk_runtime_closure(success: bool, stdout: &[u8]) -> (r: Result<Closure, PlanError>)
    ensures
        match r {
            Ok(closure) => {
                &&& success
                &&& closure.wf()
                &&& closure@ == tree_closure(lossy_text(stdout@))
                &&& valid_utf8(stdout@) ==> lossy_text(stdout@) == decode_utf8(stdout@)
            },
            Err(PlanError::Cargo(m)) => !success && m@ == "cargo tree failed"@,
            Err(_) => false,
        },
{
    if !success {
        return Err(PlanError::Cargo("cargo tree failed".to_owned()));
    }
    Ok(closure_from_text(&text_from_bytes(stdout)))
}

/// The crates that the output of `cargo tree` names.
pub fn closure_from_text(text: &str) -> (r: Closure)
    ensures
        r.wf(),
        r@ == tree_closure(text@),
{
    let found = line_list(text);
    let ghost all = lines(text@);
    let ghost pick = |l: Seq<char>| tree_entry(l);
    let mut closure: Closure = OrderedSet::new();
    proof {
        reveal(Seq::filter_map);
        assert(all.take(0).filter_map(pick).to_set() =~= Set::<Id>::empty());
    }
    for i in 0..found.len()
        invariant
            texts(found@) == all,
            pick == (|l: Seq<char>| tree_entry(l)),
            closure.wf(),
            closure@ == all.take(i as int).filter_map(pick).to_set(),
    {
        proof {
            assert(found@[i as int]@ == all[i as int]);
            all.lemma_filter_map_take_succ(pick, i as int);
        }
        let ghost before = all.take(i as int).filter_map(pick);
        match parse_tree_line(&found[i]) {
            Some(id) => {
                proof {
                    before.lemma_push_to_set_commute(id@);
                    assert(before + seq![id@] =~= before.push(id@));
                }
                closure = closure.insert(id);
            },
            None => {
                assert(before + seq![] =~= before);
            },
        }
    }
    assert(all.take(all.len() as int) == all);
    closure
}

/// Whether a file lies in the directory of a target triple. `triple_dir` is
/// the triple between slashes; cargo writes the host's separators.
pub open spec fn in_dir(file: Seq<char>, triple_dir: Seq<char>) -> bool {
    occurs(replace(file, '\\', '/'), triple_dir)
}

/// Whether a file lies in the directory of a target triple: what separates
/// target-side artifacts from host-side units of the same crate.
pub fn in_triple_dir(file: &str, triple_dir: &str) -> (r: bool)
    ensures
        r == in_dir(file@, triple_dir@),
{
    contains_text(&replaced(file, '\\', '/'), triple_dir)
}

/// The first text in the directory of the triple that ends in `suffix`.
pub open spec fn first_file(
    files: Seq<Seq<char>>,
    triple_dir: Seq<char>,
    suffix: Seq<char>,
) -> Option<Seq<char>>
    decreases files.len(),
{
    if files.len() == 0 {
        None
    } else if in_dir(files[0], triple_dir) && suffix.is_suffix_of(files[0]) {
        Some(files[0])
    } else {
        first_file(files.drop_first(), triple_dir, suffix)
    }
}

/// The artifact among the files of a unit: the library if there is one, else
/// its metadata.
pub open spec fn chosen_file(files: Seq<Seq<char>>, triple_dir: Seq<char>) -> Option<Seq<char>> {
    match first_file(files, triple_dir, ".rlib"@) {
        Some(f) => Some(f),
        None => first_file(files, triple_dir, ".rmeta"@),
    }
}

fn find_file(files: &Vec<String>, triple_dir: &str, suffix: &str) -> (r: Option<String>)
    ensures
        text_view(r) == first_file(texts(files@), triple_dir@, suffix@),
{
    let ghost all = texts(files@);
    assert(all.skip(0) == all);
    for i in 0..files.len()
        invariant
            all == texts(files@),
            first_file(all, triple_dir@, suffix@) == first_file(
                all.skip(i as int),
                triple_dir@,
                suffix@,
            ),
    {
        assert(all.skip(i as int)[0] == files@[i as int]@);
        if in_triple_dir(&files[i], triple_dir) && has_suffix(&files[i], suffix) {
            return Some(files[i].clone());
        }
        assert(all.skip(i as int).drop_first() == all.skip(i + 1));
    }
    None
}

/// The entry that a build message makes: that of a library of the closure
/// which was compiled for the target.
pub open spec fn message_entry(
    doc: JsonTree,
    closure: Set<Id>,
    triple_dir: Seq<char>,
) -> Option<(Id, Artifact)> {
    let target = doc.member("target"@);
    let kinds = target.member("kind"@).text_items();
    if doc.member("reason"@).text() != Some("compiler-artifact"@) {
        None
    } else {
        match (target.member("name"@).text(), doc.member("package_id"@).text()) {
            (Some(name), Some(package)) => match id_version(package) {
                Some(version) => {
                    let id = (crate_name(name), version);
                    if !closure.contains(id) || kinds.contains("proc-macro"@) || kinds.contains(
                        "custom-build"@,
                    ) {
                        None
                    } else {
                        match chosen_file(doc.member("filenames"@).text_items(), triple_dir) {
                            Some(path) => Some(
                                (
                                    id,
                                    Artifact {
                                        features: doc.member("features"@).text_items().to_set(),
                                        path,
                                    },
                                ),
                            ),
                            None => None,
                        }
                    }
                },
                None => None,
            },
            _ => None,
        }
    }
}

/// The entries that build messages make; a later one for a crate replaces an
/// earlier one.
pub open spec fn message_entries(
    docs: Seq<JsonTree>,
    closure: Set<Id>,
    triple_dir: Seq<char>,
) -> Map<Id, Artifact>
    decreases docs.len(),
{
    if docs.len() == 0 {
        Map::empty()
    } else {
        let before = message_entries(docs.drop_last(), closure, triple_dir);
        match message_entry(docs.last(), closure, triple_dir) {
            Some((id, artifact)) => before.insert(id, artifact),
            None => before,
        }
    }
}

/// The strings of a list as a set.
pub fn set_of(list: Vec<String>) -> (r: Features)
    ensures
        r.wf(),
        r@ == texts(list@).to_set(),
{
    let mut out: Features = OrderedSet::new();
    let ghost all = texts(list@);
    assert(all.take(0).to_set() =~= Set::<Seq<char>>::empty());
    for i in 0..list.len()
        invariant
            all == texts(list@),
            out.wf(),
            out@ == all.take(i as int).to_set(),
    {
        proof {
            assert(all.take(i + 1) == all.take(i as int).push(all[i as int]));
            all.take(i as int).lemma_push_to_set_commute(all[i as int]);
        }
        out = out.insert(list[i].clone());
    }
    assert(all.take(all.len() as int) == all);
    out
}

/// Whether a document's member is the given text.
fn member_is(doc: &Json, key: &str, text: &str) -> (r: bool)
    ensures
        r == (doc@.member(key@).text() == Some(text@)),
{
    match text_of(doc.member(key)) {
        Some(t) => same(&t, text),
        None => false,
    }
}

/// The entry that a build message makes.
fn read_message(doc: &Json, closure: &Closure, triple_dir: &str) -> (r: Option<
    ((String, String), Features, String),
>)
    requires
        closure.wf(),
    ensures
        match message_entry(doc@, closure@, triple_dir@) {
            Some((id, artifact)) => r matches Some((k, features, path)) && k@ == id && features.wf()
                && features@ == artifact.features && path@ == artifact.path,
            None => r is None,
        },
{
    if !member_is(doc, "reason", "compiler-artifact") {
        return None;
    }
    let target = doc.member("target");
    let name = match text_of(member_of(target, "name")) {
        Some(name) => replaced(&name, '-', '_'),
        None => return None,
    };
    let package = match text_of(doc.member("package_id")) {
        Some(package) => package,
        None => return None,
    };
    let version = match package_id_version(&package) {
        Some(version) => version.to_owned(),
        None => return None,
    };
    let id = (name, version);
    if !closure.contains(&id) {
        return None;
    }
    let kinds = text_items_of(member_of(target, "kind"));
    if holds(&kinds, "proc-macro") || holds(&kinds, "custom-build") {
        return None;
    }
    // Prefer the rlib: the final dylib link needs code, and rustc dedupes a
    // crate already linked into the SDK dylib instead of embedding the rlib a
    // second time.
    let files = text_items_of(doc.member("filenames"));
    let path = match find_file(&files, triple_dir, ".rlib") {
        Some(path) => path,
        None => match find_file(&files, triple_dir, ".rmeta") {
            Some(path) => path,
            None => return None,
        },
    };
    let features = set_of(text_items_of(doc.member("features")));
    Some((id, features, path))
}

/// The manifest that build messages make.
pub fn manifest_from_messages(docs: &Vec<Json>, closure: &Closure, triple_dir: &str) -> (r:
    SdkManifest)
    requires
        closure.wf(),
    ensures
        r.wf(),
        r@ == message_entries(trees(docs@), closure@, triple_dir@),
{
    let mut manifest = SdkManifest::new();
    let ghost all = trees(docs@);
    for i in 0..docs.len()
        invariant
            all == trees(docs@),
            closure.wf(),
            manifest.wf(),
            manifest@ == message_entries(all.take(i as int), closure@, triple_dir@),
    {
        assert(all.take(i + 1).drop_last() == all.take(i as int));
        assert(all.take(i + 1).last() == docs@[i as int]@);
        match read_message(&docs[i], closure, triple_dir) {
            Some(((name, version), features, path)) => {
                manifest = manifest.insert(&name, &version, features, &path);
            },
            None => {},
        }
    }
    assert(all.take(all.len() as int) == all);
    manifest
}

/// The native search paths that a build message reports: those of a build
/// script that ran.
pub open spec fn message_link_paths(doc: JsonTree) -> Seq<Seq<char>> {
    if doc.member("reason"@).text() == Some("build-script-executed"@) {
        doc.member("linked_paths"@).text_items()
    } else {
        seq![]
    }
}

/// The native search paths that build messages report.
pub open spec fn all_link_paths(docs: Seq<JsonTree>) -> Set<Seq<char>>
    decreases docs.len(),
{
    if docs.len() == 0 {
        Set::empty()
    } else {
        all_link_paths(docs.drop_last()).union(message_link_paths(docs.last()).to_set())
    }
}

/// The native search paths that build messages report.
///
/// A redirected library can require an import library that lives in a crate
/// the project's graph does not contain, so no build script of its own ever
/// emits the path.
pub fn link_paths_from_messages(docs: &Vec<Json>) -> (r: OrderedSet<String>)
    ensures
        r.wf(),
        r@ == all_link_paths(trees(docs@)),
{
    let mut out: OrderedSet<String> = OrderedSet::new();
    let ghost all = trees(docs@);
    for i in 0..docs.len()
        invariant
            all == trees(docs@),
            out.wf(),
            out@ == all_link_paths(all.take(i as int)),
    {
        let ghost before = all_link_paths(all.take(i as int));
        assert(all.take(i + 1).drop_last() == all.take(i as int));
        assert(all.take(i + 1).last() == docs@[i as int]@);
        if member_is(&docs[i], "reason", "build-script-executed") {
            let found = text_items_of(docs[i].member("linked_paths"));
            let ghost paths = texts(found@);
            assert(before.union(paths.take(0).to_set()) =~= before);
            for j in 0..found.len()
                invariant
                    paths == texts(found@),
                    out.wf(),
                    out@ == before.union(paths.take(j as int).to_set()),
            {
                proof {
                    assert(paths.take(j + 1) == paths.take(j as int).push(paths[j as int]));
                    paths.take(j as int).lemma_push_to_set_commute(paths[j as int]);
                    assert(before.union(paths.take(j + 1).to_set()) =~= before.union(
                        paths.take(j as int).to_set(),
                    ).insert(paths[j as int]));
                }
                out = out.insert(found[j].clone());
            }
            assert(paths.take(paths.len() as int) == paths);
        } else {
            assert(before.union(Seq::<Seq<char>>::empty().to_set()) =~= before);
        }
    }
    assert(all.take(all.len() as int) == all);
    out
}

/// The documents among the lines of a build's output; a line that is none is
/// passed over.
pub open spec fn messages_of(text: Seq<char>) -> Seq<JsonTree> {
    lines(text).filter_map(|l: Seq<char>| json_text(l))
}

/// The documents among the lines of a build's output.
pub fn parse_messages(text: &str) -> (r: Vec<Json>)
    ensures
        trees(r@) == messages_of(text@),
{
    let found = line_list(text);
    let ghost all = lines(text@);
    let ghost pick = |l: Seq<char>| json_text(l);
    let mut out: Vec<Json> = Vec::new();
    proof {
        reveal(Seq::filter_map);
        assert(trees(out@) =~= all.take(0).filter_map(pick));
    }
    for i in 0..found.len()
        invariant
            texts(found@) == all,
            pick == (|l: Seq<char>| json_text(l)),
            trees(out@) == all.take(i as int).filter_map(pick),
    {
        proof {
            assert(found@[i as int]@ == all[i as int]);
            all.lemma_filter_map_take_succ(pick, i as int);
        }
        let ghost before = out@;
        match parse_text(&found[i]) {
            Some(doc) => {
                out.push(doc);
                assert(trees(out@) =~= trees(before) + seq![doc@]);
            },
            None => {
                assert(trees(before) + seq![] =~= trees(before));
            },
        }
    }
    assert(all.take(all.len() as int) == all);
    out
}

/// What a build of the SDK yields.
pub struct Generated {
    pub manifest: SdkManifest,
    pub link_paths: OrderedSet<String>,
}

impl SdkManifest {
    /// Reads the artifacts of the SDK's runtime closure, and the search paths
    /// its build scripts emitted, from the JSON stream of a build.
    pub fn generate(
        success: bool,
        stdout: &[u8],
        closure: &Closure,
        triple: &str,
    ) -> (r: Result<Generated, PlanError>)
        requires
            closure.wf(),
        ensures
            match r {
                Ok(g) => {
                    let docs = messages_of(lossy_text(stdout@));
                    &&& success
                    &&& g.manifest.wf()
                    &&& g.manifest@ == message_entries(docs, closure@, "/"@ + triple@ + "/"@)
                    &&& g.link_paths.wf()
                    &&& g.link_paths@ == all_link_paths(docs)
                    &&& valid_utf8(stdout@) ==> lossy_text(stdout@) == decode_utf8(stdout@)
                },
                Err(PlanError::Cargo(m)) => !success && m@
                    == "SDK build for manifest generation failed"@,
                Err(_) => false,
            },
    {
        if !success {
            return Err(PlanError::Cargo("SDK build for manifest generation failed".to_owned()));
        }
        let docs = parse_messages(&text_from_bytes(stdout));
        let triple_dir = "/".to_owned().concat(triple).concat("/");
        let manifest = manifest_from_messages(&docs, closure, &triple_dir);
        let link_paths = link_paths_from_messages(&docs);
        Ok(Generated { manifest, link_paths })
    }

    /// The arguments of the build that a dev workspace's manifest is
    /// generated from, for an SDK whose dylib is at `dylib`.
    ///
    /// Artifacts are enumerated from the profile the SDK was built at, so a
    /// release SDK's manifest points at release libraries rather than at
    /// debug ones from a stray earlier build.
    pub fn generate_dev(dylib: &str) -> (r: Vec<String>)
        ensures
            exists|dir: Option<Seq<char>>, name: Option<Seq<char>>|
                #[trigger] profile_answers(dylib@, dir, name) && texts(r@) == dev_args(
                    name == Some("release"@),
                ),
    {
        let dir = path_parent(dylib);
        let name = match &dir {
            Some(d) => path_file_name(d),
            None => None,
        };
        proof {
            assert(profile_answers(dylib@, text_view(dir), text_view(name)));
        }
        let release = match &name {
            Some(n) => same(n, "release"),
            None => false,
        };
        dev_build_args(release)
    }
}

/// Answers of the host to which directory a file is in, and its name.
pub open spec fn profile_answers(
    dylib: Seq<char>,
    dir: Option<Seq<char>>,
    name: Option<Seq<char>>,
) -> bool {
    &&& parent_fact(dylib, dir)
    &&& match dir {
        Some(d) => file_name_fact(d, name),
        None => name is None,
    }
}

/// The build that reports the artifacts of a dev workspace.
pub open spec fn dev_args(release: bool) -> Seq<Seq<char>> {
    let common = seq!["-p"@, "jackdaw"@, "--features"@, "dylib"@];
    if release {
        common.push("--release"@)
    } else {
        common
    }
}

/// The arguments of the build that reports the artifacts of a dev workspace.
pub fn dev_build_args(release: bool) -> (r: Vec<String>)
    ensures
        texts(r@) == dev_args(release),
{
    let mut args: Vec<String> = Vec::new();
    args.push("-p".to_owned());
    args.push("jackdaw".to_owned());
    args.push("--features".to_owned());
    args.push("dylib".to_owned());
    if release {
        args.push("--release".to_owned());
    }
    assert(texts(args@) =~= dev_args(release));
    args
}

/// The cargo invocation that lists the SDK's runtime closure. Proc-macro
/// crates and their host-side support libraries stay out of it.
pub fn tree_command() -> (r: Vec<String>)
    ensures
        texts(r@) == seq![
            "tree"@,
            "-p"@,
            "jackdaw_sdk"@,
            "-e"@,
            "normal,no-proc-macro"@,
            "--prefix"@,
            "none"@,
        ],
{
    let mut args: Vec<String> = Vec::new();
    args.push("tree".to_owned());
    args.push("-p".to_owned());
    args.push("jackdaw_sdk".to_owned());
    args.push("-e".to_owned());
    args.push("normal,no-proc-macro".to_owned());
    args.push("--prefix".to_owned());
    args.push("none".to_owned());
    args
}

/// The cargo invocation that builds for `triple` and reports in JSON.
/// `build_args` must name the package set the SDK was built with: a narrower
/// one resolves different features and turns the report into a rebuild.
pub fn build_command(build_args: &Vec<String>, triple: &str) -> (r: Vec<String>)
    ensures
        texts(r@) == seq!["build"@] + texts(build_args@) + seq![
            "--target"@,
            triple@,
            "--message-format=json"@,
        ],
{
    let mut args: Vec<String> = Vec::new();
    args.push("build".to_owned());
    for i in 0..build_args.len()
        invariant
            texts(args@) == seq!["build"@] + texts(build_args@).take(i as int),
    {
        let ghost before = args@;
        args.push(build_args[i].clone());
        assert(texts(args@) =~= texts(before).push(texts(build_args@)[i as int]));
        assert(texts(build_args@).take(i + 1) =~= texts(build_args@).take(i as int).push(
            texts(build_args@)[i as int],
        ));
    }
    assert(texts(build_args@).take(build_args.len() as int) == texts(build_args@));
    let ghost front = texts(args@);
    args.push("--target".to_owned());
    args.push(triple.to_owned());
    args.push("--message-format=json".to_owned());
    assert(texts(args@) =~= front + seq!["--target"@, triple@, "--message-format=json"@]);
    args
}

} // verus!
