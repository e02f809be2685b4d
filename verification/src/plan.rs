//! The per-edge redirect plan and the lock alignment that precedes it.
//!
//! A project builds against the shipped SDK by having the rustc wrapper
//! rewrite `--extern` flags to the SDK's artifacts. The decisions are made
//! per dependency edge: an edge redirects only when the project resolves that
//! dependency at the very version the SDK holds. The plan is one
//! `consumer@version:alias=artifact` line per such edge.
//!
//! Before planning, the project's lockfile is aligned: closure crates that
//! resolved to another version get pinned to the SDK's.

use vstd::prelude::*;
use vstd::string::StringExecFns;

use crate::error::PlanError;
use crate::host::{absolute_fact, absolute_on, join_fact, join_on, path_is_absolute, path_join};
use crate::json::{json_bytes, list_of, member_of, parse_bytes, text_items_of, text_of, trees, Json, JsonTree};
use crate::manifest::{covers, only_version, shortfall, Artifact, Features, Id, SdkManifest};
use crate::generate::set_of;
use crate::order::{ascending, OrderedMap, OrderedSet};
use crate::package_id::{crate_name, id_name, id_version, package_id_name, package_id_version};
use crate::text::{replaced, same, terminated, texts};

verus! {

/// The cargo invocation that describes a project's resolve graph.
pub fn metadata_command() -> (r: Vec<String>)
    ensures
        texts(r@) == seq!["metadata"@, "--format-version"@, "1"@],
{
    let mut args: Vec<String> = Vec::new();
    args.push("metadata".to_owned());
    args.push("--format-version".to_owned());
    args.push("1".to_owned());
    args
}

/// Reads the output of `cargo metadata` run in `dir`.
pub fn cargo_metadata(success: bool, stdout: &[u8], dir: &str) -> (r: Result<Json, PlanError>)
    ensures
        match r {
            Ok(doc) => success && json_bytes(stdout@) == Ok::<JsonTree, Seq<char>>(doc@),
            Err(PlanError::Cargo(m)) => !success && m@ == "cargo metadata failed in "@ + dir@,
            Err(PlanError::Parse(m)) => success && json_bytes(stdout@) is Err && m@
                == "cargo metadata output: "@ + json_bytes(stdout@)->Err_0,
            Err(PlanError::Io(_)) => false,
        },
{
    if !success {
        return Err(PlanError::Cargo("cargo metadata failed in ".to_owned().concat(dir)));
    }
    match parse_bytes(stdout) {
        Ok(doc) => Ok(doc),
        Err(e) => Err(PlanError::Parse("cargo metadata output: ".to_owned().concat(&e))),
    }
}

/// A package that the project resolved to another version than the SDK's.
pub struct Drift {
    /// The name as cargo spells it.
    pub name: String,
    /// The version in the lock.
    pub from: String,
    /// The SDK's version.
    pub to: String,
}

impl View for Drift {
    type V = (Seq<char>, (Seq<char>, Seq<char>));

    open spec fn view(&self) -> (Seq<char>, (Seq<char>, Seq<char>)) {
        (self.name@, (self.from@, self.to@))
    }
}

/// Whether a package drifted: its name, its version and the one version that
/// the SDK holds of it. Where the SDK holds several there is none to pin to.
pub open spec fn package_drift(package: JsonTree, m: Map<Id, Artifact>) -> Option<
    (Seq<char>, (Seq<char>, Seq<char>)),
> {
    match (package.member("name"@).text(), package.member("version"@).text()) {
        (Some(name), Some(version)) => match only_version(m, crate_name(name)) {
            Some(held) => if held != version {
                Some((name, (version, held)))
            } else {
                None
            },
            None => None,
        },
        _ => None,
    }
}

/// The drifted packages: by name and version in the lock, the SDK's version.
/// A graph can hold two versions of one crate, each of which drifts.
pub open spec fn drifts(packages: Seq<JsonTree>, m: Map<Id, Artifact>) -> Map<Id, Seq<char>>
    decreases packages.len(),
{
    if packages.len() == 0 {
        Map::empty()
    } else {
        let before = drifts(packages.drop_last(), m);
        match package_drift(packages.last(), m) {
            Some((name, (from, to))) => before.insert((name, from), to),
            None => before,
        }
    }
}

/// The drifted packages in ascending order of their names, then of their
/// versions.
pub open spec fn drift_list(found: Map<Id, Seq<char>>) -> Seq<
    (Seq<char>, (Seq<char>, Seq<char>)),
> {
    ascending::<(String, String)>(found.dom()).map_values(|id: Id| (id.0, (id.1, found[id])))
}

/// The views of drifted packages.
pub open spec fn drift_views(s: Seq<Drift>) -> Seq<(Seq<char>, (Seq<char>, Seq<char>))> {
    s.map_values(|d: Drift| d@)
}

/// The closure crates of a project's resolve graph that are to be pinned to
/// the version the SDK holds: each version of them that is another.
///
/// Cargo re-resolves on top of a seeded lockfile, and a package whose
/// dependency edges differ drifts to a newer patch. Its version then no
/// longer matches the manifest, and the project compiles its own copy beside
/// crates that were built against the SDK's.
pub fn align_lock(metadata: &Json, manifest: &SdkManifest) -> (r: Vec<Drift>)
    requires
        manifest.wf(),
    ensures
        drift_views(r@) == drift_list(
            drifts(metadata@.member("packages"@).items(), manifest@),
        ),
{
    let mut found: OrderedMap<(String, String), String> = OrderedMap::new();
    let ghost all = metadata@.member("packages"@).items();
    assert(found@ =~= drifts(all.take(0), manifest@));
    match list_of(metadata.member("packages")) {
        Some(packages) => {
            for i in 0..packages.len()
                invariant
                    trees(packages@) == all,
                    manifest.wf(),
                    found.wf(),
                    found@ == drifts(all.take(i as int), manifest@),
            {
                assert(all.take(i + 1).drop_last() == all.take(i as int));
                assert(all.take(i + 1).last() == packages@[i as int]@);
                match read_drift(&packages[i], manifest) {
                    Some(d) => {
                        found = found.insert((d.name, d.from), d.to);
                    },
                    None => {},
                }
            }
            assert(trees(packages@) == all);
        },
        None => {
            assert(all =~= Seq::<JsonTree>::empty());
        },
    }
    assert(all.take(all.len() as int) == all);
    assert(found@ == drifts(all, manifest@));
    proof {
        found.lemma_contents();
    }
    let ghost want = drift_list(found@);
    let n: usize = found.len();
    let mut out: Vec<Drift> = Vec::new();
    for i in 0..n
        invariant
            found.wf(),
            n == found.keys().len(),
            want == drift_list(found@),
            want.len() == n,
            drift_views(out@) == want.take(i as int),
    {
        proof {
            found.lemma_contents();
            assert(found@.dom().contains(found.keys()[i as int]));
        }
        let (name, from) = found.key_at(i);
        let to = found.value_at(i);
        let ghost before = out@;
        let d = Drift { name: name.clone(), from: from.clone(), to: to.clone() };
        assert(d@ == want[i as int]);
        out.push(d);
        assert(drift_views(out@) =~= drift_views(before).push(d@));
        assert(want.take(i + 1) =~= want.take(i as int).push(want[i as int]));
    }
    assert(want.take(n as int) =~= want);
    out
}

/// Whether a package drifted.
fn read_drift(package: &Json, manifest: &SdkManifest) -> (r: Option<Drift>)
    requires
        manifest.wf(),
    ensures
        match package_drift(package@, manifest@) {
            Some(change) => r matches Some(d) && d@ == change,
            None => r is None,
        },
{
    let name = match text_of(package.member("name")) {
        Some(name) => name,
        None => return None,
    };
    let version = match text_of(package.member("version")) {
        Some(version) => version,
        None => return None,
    };
    match manifest.sole_version(&replaced(&name, '-', '_')) {
        Some(held) => if same(held, &version) {
            None
        } else {
            Some(Drift { name, from: version, to: held.to_owned() })
        },
        None => None,
    }
}

impl Drift {
    /// The cargo invocation that pins the package. The spec carries the
    /// version that is in the lock, so an ambiguous name cannot match the
    /// wrong entry.
    pub fn update_command(&self) -> (r: Vec<String>)
        ensures
            texts(r@) == seq![
                "update"@,
                "-p"@,
                self.name@ + "@"@ + self.from@,
                "--precise"@,
                self.to@,
            ],
    {
        let mut args: Vec<String> = Vec::new();
        args.push("update".to_owned());
        args.push("-p".to_owned());
        args.push(self.name.clone().concat("@").concat(&self.from));
        args.push("--precise".to_owned());
        args.push(self.to.clone());
        args
    }
}

/// A dependency edge that redirects to an SDK artifact.
pub struct Edge {
    /// The crate that has the dependency, as rustc spells its name.
    pub consumer: String,
    /// Its version.
    pub version: String,
    /// The name it knows the dependency by.
    pub alias: String,
    /// The artifact, as the manifest gives it.
    pub artifact: String,
}

/// A redirected edge as texts.
pub struct Redirect {
    pub consumer: Seq<char>,
    pub version: Seq<char>,
    pub alias: Seq<char>,
    pub artifact: Seq<char>,
}

impl View for Edge {
    type V = Redirect;

    open spec fn view(&self) -> Redirect {
        Redirect {
            consumer: self.consumer@,
            version: self.version@,
            alias: self.alias@,
            artifact: self.artifact@,
        }
    }
}

/// The views of edges.
pub open spec fn redirects(s: Seq<Edge>) -> Seq<Redirect> {
    s.map_values(|e: Edge| e@)
}

/// The nodes of a project's resolve graph.
pub open spec fn graph_nodes(metadata: JsonTree) -> Seq<JsonTree> {
    metadata.member("resolve"@).member("nodes"@).items()
}

/// The crate that a package id names, as a manifest names it.
pub open spec fn package_key(id: Seq<char>) -> Option<Id> {
    match (id_name(id), id_version(id)) {
        (Some(name), Some(version)) => Some((name, version)),
        _ => None,
    }
}

/// The crate that a node of the graph is.
pub open spec fn node_key(node: JsonTree) -> Option<Id> {
    match node.member("id"@).text() {
        Some(id) => package_key(id),
        None => None,
    }
}

/// The alias of a dependency, and the id and the crate it resolved to.
pub open spec fn dependency(dep: JsonTree) -> Option<(Seq<char>, Seq<char>, Id)> {
    match (dep.member("name"@).text(), dep.member("pkg"@).text()) {
        (Some(alias), Some(package)) => match package_key(package) {
            Some(key) => Some((alias, package, key)),
            None => None,
        },
        _ => None,
    }
}

/// The redirect of one dependency of a consumer: that to the SDK's artifact
/// of the very version it resolved to, if the SDK has one.
pub open spec fn dependency_redirect(
    consumer: Id,
    dep: JsonTree,
    m: Map<Id, Artifact>,
) -> Option<Redirect> {
    match dependency(dep) {
        Some((alias, _, key)) => if m.dom().contains(key) {
            Some(
                Redirect {
                    consumer: consumer.0,
                    version: consumer.1,
                    alias,
                    artifact: m[key].path,
                },
            )
        } else {
            None
        },
        None => None,
    }
}

/// The redirects of a node, in the order of its dependencies.
pub open spec fn node_redirects(node: JsonTree, m: Map<Id, Artifact>) -> Seq<Redirect> {
    match node_key(node) {
        Some(consumer) => node.member("deps"@).items().filter_map(
            |dep: JsonTree| dependency_redirect(consumer, dep, m),
        ),
        None => seq![],
    }
}

/// The redirects of a graph, in the order of its nodes.
pub open spec fn graph_redirects(nodes: Seq<JsonTree>, m: Map<Id, Artifact>) -> Seq<Redirect>
    decreases nodes.len(),
{
    if nodes.len() == 0 {
        seq![]
    } else {
        graph_redirects(nodes.drop_last(), m) + node_redirects(nodes.last(), m)
    }
}

/// The features that the project resolved for a package: those of the last
/// node with its id, none where there is no such node.
pub open spec fn resolved_features(nodes: Seq<JsonTree>, package: Seq<char>) -> Set<Seq<char>>
    decreases nodes.len(),
{
    if nodes.len() == 0 {
        Set::empty()
    } else if nodes.last().member("id"@).text() == Some(package) {
        nodes.last().member("features"@).text_items().to_set()
    } else {
        resolved_features(nodes.drop_last(), package)
    }
}

/// What the SDK's build of a dependency lacks: the crate, as `name version`,
/// and the features.
pub open spec fn dependency_shortfall(
    dep: JsonTree,
    nodes: Seq<JsonTree>,
    m: Map<Id, Artifact>,
) -> Option<(Seq<char>, Seq<char>)> {
    match dependency(dep) {
        Some((_, package, key)) => {
            let wanted = resolved_features(nodes, package);
            if m.dom().contains(key) && !covers(m, key, wanted) {
                Some((key.0 + " "@ + key.1, shortfall(m, key, wanted)))
            } else {
                None
            }
        },
        None => None,
    }
}

/// What the SDK's builds of a node's dependencies lack.
pub open spec fn node_shortfalls(
    node: JsonTree,
    nodes: Seq<JsonTree>,
    m: Map<Id, Artifact>,
) -> Seq<(Seq<char>, Seq<char>)> {
    match node_key(node) {
        Some(_) => node.member("deps"@).items().filter_map(
            |dep: JsonTree| dependency_shortfall(dep, nodes, m),
        ),
        None => seq![],
    }
}

/// What the SDK's builds lack over the first nodes of a graph.
pub open spec fn graph_shortfalls(
    some: Seq<JsonTree>,
    nodes: Seq<JsonTree>,
    m: Map<Id, Artifact>,
) -> Seq<(Seq<char>, Seq<char>)>
    decreases some.len(),
{
    if some.len() == 0 {
        seq![]
    } else {
        graph_shortfalls(some.drop_last(), nodes, m) + node_shortfalls(some.last(), nodes, m)
    }
}

/// The first value given for each key.
pub open spec fn first_given(s: Seq<(Seq<char>, Seq<char>)>) -> Map<Seq<char>, Seq<char>>
    decreases s.len(),
{
    if s.len() == 0 {
        Map::empty()
    } else {
        let before = first_given(s.drop_last());
        if before.dom().contains(s.last().0) {
            before
        } else {
            before.insert(s.last().0, s.last().1)
        }
    }
}

/// The entries whose value is not empty, in ascending order of their keys.
pub open spec fn filled_entries(found: Map<Seq<char>, Seq<char>>) -> Seq<(Seq<char>, Seq<char>)> {
    ascending::<String>(found.dom()).map_values(|k: Seq<char>| (k, found[k])).filter(
        |e: (Seq<char>, Seq<char>)| e.1.len() > 0,
    )
}

/// The views of pairs of strings.
pub open spec fn pair_texts(s: Seq<(String, String)>) -> Seq<(Seq<char>, Seq<char>)> {
    s.map_values(|p: (String, String)| p@)
}

/// The crate that a package id names.
fn read_package_key(id: &str) -> (r: Option<(String, String)>)
    ensures
        match package_key(id@) {
            Some(key) => r matches Some(k) && k@ == key,
            None => r is None,
        },
{
    match (package_id_name(id), package_id_version(id)) {
        (Some(name), Some(version)) => Some((name, version.to_owned())),
        _ => None,
    }
}

/// The crate that a node of the graph is.
fn read_node_key(node: &Json) -> (r: Option<(String, String)>)
    ensures
        match node_key(node@) {
            Some(key) => r matches Some(k) && k@ == key,
            None => r is None,
        },
{
    match text_of(node.member("id")) {
        Some(id) => read_package_key(&id),
        None => None,
    }
}

/// The alias of a dependency, and the id and the crate it resolved to.
fn read_dependency(dep: &Json) -> (r: Option<(String, String, (String, String))>)
    ensures
        match dependency(dep@) {
            Some((alias, package, key)) => r matches Some((a, p, k)) && a@ == alias && p@ == package
                && k@ == key,
            None => r is None,
        },
{
    let alias = match text_of(dep.member("name")) {
        Some(alias) => alias,
        None => return None,
    };
    let package = match text_of(dep.member("pkg")) {
        Some(package) => package,
        None => return None,
    };
    match read_package_key(&package) {
        Some(key) => Some((alias, package, key)),
        None => None,
    }
}

/// The redirects of a node.
fn edges_of_node(node: &Json, manifest: &SdkManifest) -> (r: Vec<Edge>)
    requires
        manifest.wf(),
    ensures
        redirects(r@) == node_redirects(node@, manifest@),
{
    let mut out: Vec<Edge> = Vec::new();
    assert(redirects(out@) =~= Seq::<Redirect>::empty());
    let consumer = match read_node_key(node) {
        Some(consumer) => consumer,
        None => return out,
    };
    let ghost all = node@.member("deps"@).items();
    let ghost m = manifest@;
    let ghost pick = |dep: JsonTree| dependency_redirect(consumer@, dep, m);
    proof {
        reveal(Seq::filter_map);
        assert(all.take(0).filter_map(pick) =~= Seq::<Redirect>::empty());
    }
    let deps = match list_of(node.member("deps")) {
        Some(deps) => deps,
        None => {
            assert(all =~= all.take(0));
            return out;
        },
    };
    for i in 0..deps.len()
        invariant
            trees(deps@) == all,
            manifest.wf(),
            m == manifest@,
            pick == (|dep: JsonTree| dependency_redirect(consumer@, dep, m)),
            redirects(out@) == all.take(i as int).filter_map(pick),
    {
        proof {
            assert(deps@[i as int]@ == all[i as int]);
            all.lemma_filter_map_take_succ(pick, i as int);
        }
        let ghost before = out@;
        let mut edge: Option<Edge> = None;
        match read_dependency(&deps[i]) {
            Some((alias, _, key)) => {
                match manifest.artifact(&key.0, &key.1) {
                    Some(artifact) => {
                        // The edge is keyed on the consumer's exact version:
                        // a graph can hold two versions of one crate, each
                        // wanting another version of the same dependency.
                        edge = Some(
                            Edge {
                                consumer: consumer.0.clone(),
                                version: consumer.1.clone(),
                                alias,
                                artifact: artifact.to_owned(),
                            },
                        );
                    },
                    None => {},
                }
            },
            None => {},
        }
        match edge {
            Some(e) => {
                assert(dependency_redirect(consumer@, all[i as int], m) == Some(e@));
                out.push(e);
                assert(redirects(out@) =~= redirects(before) + seq![e@]);
            },
            None => {
                assert(dependency_redirect(consumer@, all[i as int], m) is None);
                assert(redirects(before) + seq![] =~= redirects(before));
            },
        }
    }
    assert(all.take(all.len() as int) == all);
    out
}

/// The redirects of a project's resolve graph: one per dependency edge whose
/// resolved version the SDK holds.
pub fn plan_edges(metadata: &Json, manifest: &SdkManifest) -> (r: Vec<Edge>)
    requires
        manifest.wf(),
    ensures
        redirects(r@) == graph_redirects(graph_nodes(metadata@), manifest@),
{
    let mut out: Vec<Edge> = Vec::new();
    let ghost all = graph_nodes(metadata@);
    assert(redirects(out@) =~= graph_redirects(all.take(0), manifest@));
    match list_of(member_of(metadata.member("resolve"), "nodes")) {
        Some(nodes) => {
            for i in 0..nodes.len()
                invariant
                    trees(nodes@) == all,
                    manifest.wf(),
                    redirects(out@) == graph_redirects(all.take(i as int), manifest@),
            {
                assert(all.take(i + 1).drop_last() == all.take(i as int));
                assert(all.take(i + 1).last() == nodes@[i as int]@);
                let mut found = edges_of_node(&nodes[i], manifest);
                let ghost before = out@;
                let ghost more = found@;
                out.append(&mut found);
                assert(redirects(out@) =~= redirects(before) + redirects(more));
            }
            assert(trees(nodes@) == all);
        },
        None => {
            assert(all =~= Seq::<JsonTree>::empty());
        },
    }
    assert(all.take(all.len() as int) == all);
    out
}

/// The features that the project resolved for a package.
fn read_features(nodes: &Vec<Json>, package: &str) -> (r: Features)
    ensures
        r.wf(),
        r@ == resolved_features(trees(nodes@), package@),
{
    let ghost all = trees(nodes@);
    let mut i: usize = nodes.len();
    assert(all.take(i as int) == all);
    while i > 0
        invariant
            all == trees(nodes@),
            i <= nodes.len(),
            resolved_features(all, package@) == resolved_features(all.take(i as int), package@),
        decreases i,
    {
        i = i - 1;
        assert(all.take(i + 1).drop_last() == all.take(i as int));
        assert(all.take(i + 1).last() == nodes@[i as int]@);
        match text_of(nodes[i].member("id")) {
            Some(id) => if same(&id, package) {
                return set_of(text_items_of(nodes[i].member("features")));
            },
            None => {},
        }
    }
    OrderedSet::new()
}

/// What the SDK's builds of a node's dependencies lack.
fn shortfalls_of_node(node: &Json, nodes: &Vec<Json>, manifest: &SdkManifest) -> (r: Vec<
    (String, String),
>)
    requires
        manifest.wf(),
    ensures
        pair_texts(r@) == node_shortfalls(node@, trees(nodes@), manifest@),
{
    let mut out: Vec<(String, String)> = Vec::new();
    assert(pair_texts(out@) =~= Seq::<(Seq<char>, Seq<char>)>::empty());
    match read_node_key(node) {
        Some(_) => {},
        None => return out,
    }
    let ghost all = node@.member("deps"@).items();
    let ghost m = manifest@;
    let ghost graph = trees(nodes@);
    let ghost pick = |dep: JsonTree| dependency_shortfall(dep, graph, m);
    proof {
        reveal(Seq::filter_map);
        assert(all.take(0).filter_map(pick) =~= Seq::<(Seq<char>, Seq<char>)>::empty());
    }
    let deps = match list_of(node.member("deps")) {
        Some(deps) => deps,
        None => {
            assert(all =~= all.take(0));
            return out;
        },
    };
    for i in 0..deps.len()
        invariant
            trees(deps@) == all,
            manifest.wf(),
            m == manifest@,
            graph == trees(nodes@),
            pick == (|dep: JsonTree| dependency_shortfall(dep, graph, m)),
            pair_texts(out@) == all.take(i as int).filter_map(pick),
    {
        proof {
            assert(deps@[i as int]@ == all[i as int]);
            all.lemma_filter_map_take_succ(pick, i as int);
        }
        let ghost before = out@;
        let mut lacking: Option<(String, String)> = None;
        match read_dependency(&deps[i]) {
            Some((_, package, (name, version))) => {
                // Mismatches are reported, never acted on: redirection has to
                // apply to a crate everywhere or nowhere, and dropping one
                // edge while keeping its siblings puts two instances of the
                // crate in one graph.
                let wanted = read_features(nodes, &package);
                if !manifest.covers_features(&name, &version, &wanted) {
                    match manifest.artifact(&name, &version) {
                        Some(_) => {
                            let missing = manifest.feature_shortfall(&name, &version, &wanted);
                            lacking = Some((name.concat(" ").concat(&version), missing));
                        },
                        None => {},
                    }
                }
            },
            None => {},
        }
        match lacking {
            Some(p) => {
                assert(dependency_shortfall(all[i as int], graph, m) == Some(p@));
                out.push(p);
                assert(pair_texts(out@) =~= pair_texts(before) + seq![p@]);
            },
            None => {
                assert(dependency_shortfall(all[i as int], graph, m) is None);
                assert(pair_texts(before) + seq![] =~= pair_texts(before));
            },
        }
    }
    assert(all.take(all.len() as int) == all);
    out
}

/// What the SDK's builds lack over a graph, in the order it is come across.
fn all_shortfalls(nodes: &Vec<Json>, manifest: &SdkManifest) -> (r: Vec<(String, String)>)
    requires
        manifest.wf(),
    ensures
        pair_texts(r@) == graph_shortfalls(trees(nodes@), trees(nodes@), manifest@),
{
    let mut out: Vec<(String, String)> = Vec::new();
    let ghost all = trees(nodes@);
    assert(pair_texts(out@) =~= graph_shortfalls(all.take(0), all, manifest@));
    for i in 0..nodes.len()
        invariant
            trees(nodes@) == all,
            manifest.wf(),
            pair_texts(out@) == graph_shortfalls(all.take(i as int), all, manifest@),
    {
        assert(all.take(i + 1).drop_last() == all.take(i as int));
        assert(all.take(i + 1).last() == nodes@[i as int]@);
        let mut found = shortfalls_of_node(&nodes[i], nodes, manifest);
        let ghost before = out@;
        let ghost more = found@;
        out.append(&mut found);
        assert(pair_texts(out@) =~= pair_texts(before) + pair_texts(more));
    }
    assert(all.take(all.len() as int) == all);
    out
}

/// What the SDK's builds lack over a graph: each crate once, in ascending
/// order.
pub open spec fn reported_shortfalls(metadata: JsonTree, m: Map<Id, Artifact>) -> Seq<
    (Seq<char>, Seq<char>),
> {
    let nodes = graph_nodes(metadata);
    filled_entries(first_given(graph_shortfalls(nodes, nodes, m)))
}

/// The crates that the SDK built with fewer features than the project needs,
/// as `name version`, each with the features it lacks.
///
/// The redirect still happens, so a shortfall shows up later as missing items
/// in a crate nobody edited, and this is the only place that can name the
/// real cause.
pub fn plan_shortfalls(metadata: &Json, manifest: &SdkManifest) -> (r: Vec<(String, String)>)
    requires
        manifest.wf(),
    ensures
        pair_texts(r@) == reported_shortfalls(metadata@, manifest@),
{
    let found = match list_of(member_of(metadata.member("resolve"), "nodes")) {
        Some(nodes) => all_shortfalls(nodes, manifest),
        None => Vec::new(),
    };
    let ghost nodes = graph_nodes(metadata@);
    let ghost all = graph_shortfalls(nodes, nodes, manifest@);
    assert(pair_texts(found@) =~= all);
    let mut map: OrderedMap<String, String> = OrderedMap::new();
    assert(map@ =~= first_given(all.take(0)));
    for i in 0..found.len()
        invariant
            pair_texts(found@) == all,
            map.wf(),
            map@ == first_given(all.take(i as int)),
    {
        assert(all.take(i + 1).drop_last() == all.take(i as int));
        assert(all.take(i + 1).last() == found@[i as int]@);
        let (label, missing) = &found[i];
        let known = match map.get(label) {
            Some(_) => true,
            None => false,
        };
        if !known {
            map = map.insert(label.clone(), missing.clone());
        }
    }
    assert(all.take(all.len() as int) == all);
    let ghost listed = ascending::<String>(map@.dom()).map_values(
        |k: Seq<char>| (k, map@[k]),
    );
    let ghost filled = |e: (Seq<char>, Seq<char>)| e.1.len() > 0;
    let mut out: Vec<(String, String)> = Vec::new();
    let n: usize = map.len();
    proof {
        map.lemma_contents();
        reveal(Seq::filter);
        assert(pair_texts(out@) =~= listed.take(0).filter(filled));
    }
    for i in 0..n
        invariant
            map.wf(),
            n == map.keys().len(),
            listed == ascending::<String>(map@.dom()).map_values(|k: Seq<char>| (k, map@[k])),
            listed.len() == n,
            filled == (|e: (Seq<char>, Seq<char>)| e.1.len() > 0),
            pair_texts(out@) == listed.take(i as int).filter(filled),
    {
        let label = map.key_at(i);
        let missing = map.value_at(i);
        let ghost before = out@;
        proof {
            map.lemma_contents();
            assert(map@.dom().contains(map.keys()[i as int]));
            assert(listed[i as int] == (label@, missing@));
            assert(listed.take(i + 1) == listed.take(i as int).push(listed[i as int]));
            listed.take(i as int).lemma_filter_push(listed[i as int], filled);
        }
        if !missing.as_str().is_empty() {
            let pair = (label.clone(), missing.clone());
            out.push(pair);
            assert(pair_texts(out@) =~= pair_texts(before).push(pair@));
        }
    }
    assert(listed.take(n as int) == listed);
    out
}

/// What an artifact reference resolves to, given whether it is absolute.
pub open spec fn resolution(
    artifact: Seq<char>,
    absolute: bool,
    deps_dir: Seq<char>,
    r: Seq<char>,
) -> bool {
    if absolute {
        r == artifact
    } else {
        join_fact(deps_dir, artifact, r)
    }
}

/// Resolves a manifest artifact reference to a path the rustc wrapper can
/// hand to `--extern`.
///
/// Dev manifests store absolute paths, used verbatim; a shipped SDK's stores
/// bare names, which are joined with the install's `deps/` directory. Keeping
/// the shipped form free of locations is what lets a downloaded SDK build
/// projects wherever it is unpacked. Joining itself leaves absolute paths as
/// they are, so that the result is one that a host joins the two to.
pub fn resolve_artifact(artifact: &str, deps_dir: &str) -> (r: String)
    ensures
        join_fact(deps_dir@, artifact@, r@),
{
    let absolute = path_is_absolute(artifact);
    proof {
        if absolute {
            lemma_absolute(artifact@, deps_dir@);
        }
    }
    resolve_known(artifact, absolute, deps_dir)
}

/// Joining leaves what is absolute as it is.
proof fn lemma_absolute(artifact: Seq<char>, deps_dir: Seq<char>)
    requires
        absolute_fact(artifact, true),
    ensures
        join_fact(deps_dir, artifact, artifact),
{
    assert(artifact =~= artifact.subrange(0, artifact.len() as int));
    assert(artifact.is_suffix_of(artifact));
    if absolute_on(true, artifact, true) {
        assert(join_on(true, deps_dir, artifact, artifact));
    } else {
        assert(join_on(false, deps_dir, artifact, artifact));
    }
}

/// [`resolve_artifact`], given whether the reference is absolute.
pub fn resolve_known(artifact: &str, absolute: bool, deps_dir: &str) -> (r: String)
    ensures
        resolution(artifact@, absolute, deps_dir@, r@),
{
    if absolute {
        artifact.to_owned()
    } else {
        path_join(deps_dir, artifact)
    }
}

/// How a redirect to a resolved artifact is written.
pub open spec fn plan_line(edge: Redirect, resolved: Seq<char>) -> Seq<char> {
    edge.consumer + "@"@ + edge.version + ":"@ + edge.alias + "="@ + resolved
}

/// The lines of a plan, the artifact of each edge resolved.
pub open spec fn plan_lines(edges: Seq<Redirect>, resolved: Seq<Seq<char>>) -> Seq<Seq<char>> {
    Seq::new(edges.len(), |i: int| plan_line(edges[i], resolved[i]))
}

/// What the artifacts of edges can resolve to.
pub open spec fn resolutions(
    edges: Seq<Redirect>,
    deps_dir: Seq<char>,
    resolved: Seq<Seq<char>>,
) -> bool {
    &&& resolved.len() == edges.len()
    &&& forall|i: int|
        0 <= i < edges.len() ==> join_fact(deps_dir, edges[i].artifact, #[trigger] resolved[i])
}

/// Contents that the plan of edges can have.
pub open spec fn is_plan(edges: Seq<Redirect>, deps_dir: Seq<char>, contents: Seq<char>) -> bool {
    exists|resolved: Seq<Seq<char>>| #[trigger]
        resolutions(edges, deps_dir, resolved) && contents == terminated(
            plan_lines(edges, resolved),
        )
}

/// The contents of a plan file, the artifact of each edge resolved.
pub fn render_plan(edges: &Vec<Edge>, resolved: &Vec<String>) -> (r: String)
    requires
        edges@.len() == resolved@.len(),
    ensures
        r@ == terminated(plan_lines(redirects(edges@), texts(resolved@))),
{
    let ghost all = plan_lines(redirects(edges@), texts(resolved@));
    let mut out = String::new();
    for i in 0..edges.len()
        invariant
            edges@.len() == resolved@.len(),
            all == plan_lines(redirects(edges@), texts(resolved@)),
            out@ == terminated(all.take(i as int)),
    {
        let e = &edges[i];
        let ghost before = out@;
        proof {
            assert(all.take(i + 1).drop_last() == all.take(i as int));
            assert(all[i as int] == plan_line(e@, resolved@[i as int]@));
        }
        out.append(&e.consumer);
        out.append("@");
        out.append(&e.version);
        out.append(":");
        out.append(&e.alias);
        out.append("=");
        out.append(&resolved[i]);
        out.push('\n');
        assert(out@ =~= before + all[i as int] + seq!['\n']);
    }
    assert(all.take(all.len() as int) == all);
    out
}

/// A redirect plan.
pub struct Plan {
    /// The contents of the plan file.
    pub contents: String,
    /// How many edges redirect.
    pub edges: usize,
    /// The crates that the SDK built without features the project needs.
    pub shortfalls: Vec<(String, String)>,
}

/// Makes the redirect plan for a project's resolve graph. `deps_dir` is the
/// SDK's `deps/` directory, onto which bare artifact names are rebased.
pub fn write_plan(metadata: &Json, manifest: &SdkManifest, deps_dir: &str) -> (r: Plan)
    requires
        manifest.wf(),
    ensures
        ({
            let edges = graph_redirects(graph_nodes(metadata@), manifest@);
            &&& r.edges == edges.len()
            &&& is_plan(edges, deps_dir@, r.contents@)
        }),
        pair_texts(r.shortfalls@) == reported_shortfalls(metadata@, manifest@),
{
    let edges = plan_edges(metadata, manifest);
    let ghost all = redirects(edges@);
    let mut resolved: Vec<String> = Vec::new();
    for i in 0..edges.len()
        invariant
            all == redirects(edges@),
            resolved@.len() == i,
            forall|j: int|
                0 <= j < i ==> join_fact(deps_dir@, all[j].artifact, #[trigger] texts(resolved@)[j]),
    {
        let ghost before = resolved@;
        let path = resolve_artifact(&edges[i].artifact, deps_dir);
        resolved.push(path);
        proof {
            assert(texts(resolved@) =~= texts(before).push(path@));
            assert(all[i as int].artifact == edges@[i as int].artifact@);
        }
    }
    proof {
        assert(resolutions(all, deps_dir@, texts(resolved@)));
    }
    let contents = render_plan(&edges, &resolved);
    let shortfalls = plan_shortfalls(metadata, manifest);
    Plan { contents, edges: edges.len(), shortfalls }
}

/// Whether a plan file that holds some bytes has to be written for it to hold
/// `contents`.
pub open spec fn is_stale(existing: Option<Seq<u8>>, contents: Seq<char>) -> bool {
    existing != Some(vstd::utf8::encode_utf8(contents))
}

/// Whether a plan file that holds the bytes `existing` has to be written for
/// it to hold `contents`.
pub fn plan_is_stale(existing: Option<&[u8]>, contents: &str) -> (r: bool)
    ensures
        r == is_stale(
            match existing {
                Some(bytes) => Some(bytes@),
                None => None,
            },
            contents@,
        ),
{
    let bytes = match existing {
        Some(bytes) => bytes,
        None => return true,
    };
    let want = contents.as_bytes();
    if bytes.len() != want.len() {
        return true;
    }
    for i in 0..bytes.len()
        invariant
            existing == Some(bytes),
            bytes@.len() == want@.len(),
            want@ == vstd::utf8::encode_utf8(contents@),
            forall|j: int| 0 <= j < i ==> bytes@[j] == want@[j],
    {
        if bytes[i] != want[i] {
            return true;
        }
    }
    assert(bytes@ =~= want@);
    false
}

} // verus!
