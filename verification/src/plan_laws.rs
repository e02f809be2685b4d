//! What holds of redirect plans as a whole.

use vstd::prelude::*;
use crate::extern_map::{plan_entries, plan_entry, target_of, PlanEntry};
use crate::host::{absolute_of, has_colon, is_letter, join_fact, join_on, joinable, joined_of, readable, relative, shared, verbatim};
use crate::json::JsonTree;
use crate::manifest::{covers, only_version, shortfall, versions, Artifact, Id};
use crate::order::{ascending, lemma_ascending};
use crate::package_id::crate_name;
use crate::plan::{dependency, dependency_redirect, dependency_shortfall, drift_list, drifts, first_given, graph_nodes, graph_redirects, graph_shortfalls, is_plan, is_stale, node_key, node_redirects, package_drift, plan_line, plan_lines, reported_shortfalls, resolutions, resolved_features, Redirect};
use crate::text::{is_line, lemma_cut_at, lemma_cut_parts, lemma_lines_of_terminated_cr, lemma_lines_whole, lines, split_once, strip_cr, terminated};

verus! {

/// How the rustc wrapper names the consumer of an edge.
pub open spec fn consumer_name(edge: Redirect) -> Seq<char> {
    edge.consumer + "@"@ + edge.version
}

/// The entry that an edge is meant to be read back as.
pub open spec fn meant_entry(edge: Redirect, resolved: Seq<char>) -> PlanEntry {
    PlanEntry { consumer: consumer_name(edge), alias: edge.alias, artifact: resolved }
}

/// The entries that edges are meant to be read back as.
pub open spec fn meant_entries(edges: Seq<Redirect>, resolved: Seq<Seq<char>>) -> Seq<PlanEntry> {
    Seq::new(edges.len(), |i: int| meant_entry(edges[i], resolved[i]))
}

/// An edge that a line of a plan can hold.
pub open spec fn plannable(edge: Redirect, resolved: Seq<char>) -> bool {
    &&& !consumer_name(edge).contains(':')
    &&& !consumer_name(edge).contains('=')
    &&& !edge.alias.contains('=')
    &&& is_line(plan_line(edge, resolved))
}

/// How a line of a plan falls apart.
proof fn lemma_plan_line(edge: Redirect, resolved: Seq<char>)
    ensures
        plan_line(edge, resolved) == (consumer_name(edge) + seq![':'] + edge.alias) + seq!['=']
            + resolved,
{
    reveal_strlit(":");
    reveal_strlit("=");
    assert(plan_line(edge, resolved) =~= (consumer_name(edge) + seq![':'] + edge.alias) + seq!['=']
        + resolved);
}

/// A text made of three parts holds a character when one of them does.
proof fn lemma_parts_contain(a: Seq<char>, c: char, b: Seq<char>, d: char)
    ensures
        (a + seq![c] + b).contains(d) <==> a.contains(d) || c == d || b.contains(d),
{
    let s = a + seq![c] + b;
    if a.contains(d) {
        let k = choose|k: int| 0 <= k < a.len() && a[k] == d;
        assert(s[k] == d);
    }
    if c == d {
        assert(s[a.len() as int] == d);
    }
    if b.contains(d) {
        let k = choose|k: int| 0 <= k < b.len() && b[k] == d;
        assert(s[a.len() + 1 + k] == d);
    }
    if s.contains(d) {
        let k = choose|k: int| 0 <= k < s.len() && s[k] == d;
        if k < a.len() {
            assert(a[k] == d);
        } else if k > a.len() {
            assert(b[k - a.len() - 1] == d);
        }
    }
}

/// A line that holds a line feed, or ends in a carriage return, is not read
/// back as it was meant; otherwise the separators decide.
proof fn lemma_line_back(edge: Redirect, resolved: Seq<char>)
    requires
        !plan_line(edge, resolved).contains('\n'),
    ensures
        plan_entry(strip_cr(plan_line(edge, resolved))) == Some(meant_entry(edge, resolved))
            <==> plannable(edge, resolved),
{
    let line = plan_line(edge, resolved);
    let key = consumer_name(edge);
    let head = key + seq![':'] + edge.alias;
    lemma_plan_line(edge, resolved);
    lemma_parts_contain(key, ':', edge.alias, '=');
    if plannable(edge, resolved) {
        assert(strip_cr(line) == line);
        lemma_cut_at(head, '=', resolved);
        lemma_cut_at(key, ':', edge.alias);
    }
    let stripped = strip_cr(line);
    if plan_entry(stripped) == Some(meant_entry(edge, resolved)) {
        lemma_cut_parts(stripped, '=');
        let (left, right) = split_once(stripped, '=')->0;
        lemma_cut_parts(left, ':');
        assert(right == resolved);
        assert(left =~= head);
        assert(stripped.len() == line.len());
        assert(is_line(line));
    }
}

/// What a filtering map keeps comes from an element of the sequence.
pub proof fn lemma_picked<A, B>(s: Seq<A>, pick: spec_fn(A) -> Option<B>, i: int) -> (k: int)
    requires
        0 <= i < s.filter_map(pick).len(),
    ensures
        0 <= k < s.len(),
        pick(s[k]) == Some(s.filter_map(pick)[i]),
    decreases s.len(),
{
    reveal(Seq::filter_map);
    let init = s.drop_last();
    let kept = init.filter_map(pick);
    if i < kept.len() {
        let k = lemma_picked(init, pick, i);
        assert(init[k] == s[k]);
        k
    } else {
        s.len() - 1
    }
}

/// An element that the filtering map does not drop is among what it keeps.
pub proof fn lemma_kept<A, B>(s: Seq<A>, pick: spec_fn(A) -> Option<B>, k: int)
    requires
        0 <= k < s.len(),
        pick(s[k]) is Some,
    ensures
        s.filter_map(pick).contains(pick(s[k])->0),
    decreases s.len(),
{
    reveal(Seq::filter_map);
    let init = s.drop_last();
    let kept = init.filter_map(pick);
    let all = s.filter_map(pick);
    if k < s.len() - 1 {
        assert(init[k] == s[k]);
        lemma_kept(init, pick, k);
        let j = choose|j: int| 0 <= j < kept.len() && kept[j] == pick(s[k])->0;
        assert(all[j] == pick(s[k])->0);
    } else {
        assert(all.last() == pick(s[k])->0);
    }
}

/// A filtering map that keeps as many elements as there are keeps each.
proof fn lemma_all_picked<A, B>(s: Seq<A>, pick: spec_fn(A) -> Option<B>)
    ensures
        s.filter_map(pick).len() <= s.len(),
        s.filter_map(pick).len() == s.len() ==> forall|i: int|
            0 <= i < s.len() ==> pick(#[trigger] s[i]) == Some(s.filter_map(pick)[i]),
        (forall|i: int| 0 <= i < s.len() ==> pick(#[trigger] s[i]) is Some) ==> s.filter_map(
            pick,
        ).len() == s.len(),
    decreases s.len(),
{
    reveal(Seq::filter_map);
    if s.len() > 0 {
        let init = s.drop_last();
        lemma_all_picked(init, pick);
        let kept = init.filter_map(pick);
        let all = s.filter_map(pick);
        if all.len() == s.len() {
            assert forall|i: int| 0 <= i < s.len() implies pick(#[trigger] s[i]) == Some(all[i]) by {
                if i < s.len() - 1 {
                    assert(init[i] == s[i]);
                    assert(pick(init[i]) == Some(kept[i]));
                    assert(all[i] == kept[i]);
                }
            }
        }
        if forall|i: int| 0 <= i < s.len() ==> pick(#[trigger] s[i]) is Some {
            assert forall|i: int| 0 <= i < init.len() implies pick(#[trigger] init[i]) is Some by {
                assert(pick(s[i]) is Some);
            }
            assert(pick(s[s.len() - 1]) is Some);
        }
    }
}

/// The plan that is written is read back edge by edge, exactly when each edge
/// can stand on a line.
pub proof fn plan_reads_back(edges: Seq<Redirect>, resolved: Seq<Seq<char>>)
    requires
        edges.len() == resolved.len(),
    ensures
        plan_entries(terminated(plan_lines(edges, resolved))) == meant_entries(edges, resolved)
            <==> forall|i: int|
            0 <= i < edges.len() ==> plannable(#[trigger] edges[i], resolved[i]),
{
    let ls = plan_lines(edges, resolved);
    let text = terminated(ls);
    let pick = |line: Seq<char>| plan_entry(line);
    let read = plan_entries(text);
    let meant = meant_entries(edges, resolved);
    if forall|i: int| 0 <= i < edges.len() ==> plannable(#[trigger] edges[i], resolved[i]) {
        assert forall|i: int| 0 <= i < ls.len() implies !(#[trigger] ls[i]).contains('\n') by {
            assert(plannable(edges[i], resolved[i]));
        }
        lemma_lines_of_terminated_cr(ls);
        let found = lines(text);
        assert forall|i: int| 0 <= i < found.len() implies pick(#[trigger] found[i]) == Some(
            meant[i],
        ) by {
            assert(plannable(edges[i], resolved[i]));
            lemma_line_back(edges[i], resolved[i]);
        }
        lemma_all_picked(found, pick);
        assert forall|i: int| 0 <= i < found.len() implies read[i] == meant[i] by {
            assert(pick(found[i]) == Some(read[i]));
        }
        assert(read =~= meant);
    }
    if read == meant {
        assert forall|i: int| 0 <= i < ls.len() implies !(#[trigger] ls[i]).contains('\n') by {
            let k = lemma_picked(lines(text), pick, i);
            let line = lines(text)[k];
            lemma_lines_whole(text);
            assert(!line.contains('\n'));
            lemma_cut_parts(line, '=');
            let (left, right) = split_once(line, '=')->0;
            lemma_cut_parts(left, ':');
            lemma_parts_contain(left, '=', right, '\n');
            let (key, alias) = split_once(left, ':')->0;
            lemma_parts_contain(key, ':', alias, '\n');
            assert(meant[i] == meant_entry(edges[i], resolved[i]));
            lemma_plan_line(edges[i], resolved[i]);
            let e = edges[i];
            lemma_parts_contain(consumer_name(e), ':', e.alias, '\n');
            lemma_parts_contain(consumer_name(e) + seq![':'] + e.alias, '=', resolved[i], '\n');
        }
        lemma_lines_of_terminated_cr(ls);
        lemma_all_picked(lines(text), pick);
        assert forall|i: int| 0 <= i < edges.len() implies plannable(
            #[trigger] edges[i],
            resolved[i],
        ) by {
            assert(!ls[i].contains('\n'));
            assert(pick(lines(text)[i]) == Some(read[i]));
            assert(lines(text)[i] == strip_cr(ls[i]));
            lemma_line_back(edges[i], resolved[i]);
        }
    }
}

/// The artifact found for a consumer's dependency is that of an edge listed
/// for it, and one is found when there is such an edge.
pub proof fn target_is_a_listed_edge(edges: Seq<PlanEntry>, consumer: Seq<char>, alias: Seq<char>)
    ensures
        match target_of(edges, consumer, alias) {
            Some(artifact) => edges.contains(PlanEntry { consumer, alias, artifact }),
            None => forall|i: int|
                0 <= i < edges.len() ==> !((#[trigger] edges[i]).consumer == consumer
                    && edges[i].alias == alias),
        },
    decreases edges.len(),
{
    if edges.len() > 0 {
        let rest = edges.drop_first();
        if edges[0].consumer == consumer && edges[0].alias == alias {
            assert(edges[0] == PlanEntry { consumer, alias, artifact: edges[0].artifact });
        } else {
            target_is_a_listed_edge(rest, consumer, alias);
            match target_of(edges, consumer, alias) {
                Some(artifact) => {
                    let e = PlanEntry { consumer, alias, artifact };
                    let k = choose|k: int| 0 <= k < rest.len() && rest[k] == e;
                    assert(edges[k + 1] == e);
                },
                None => {
                    assert forall|i: int| 0 <= i < edges.len() implies !((
                    #[trigger] edges[i]).consumer == consumer && edges[i].alias == alias) by {
                        if i > 0 {
                            assert(rest[i - 1] == edges[i]);
                        }
                    }
                },
            }
        }
    }
}

/// A dependency edge redirects where it stands in the graph.
pub open spec fn edge_at(
    nodes: Seq<JsonTree>,
    m: Map<Id, Artifact>,
    n: int,
    d: int,
    edge: Redirect,
) -> bool {
    &&& 0 <= n < nodes.len()
    &&& 0 <= d < nodes[n].member("deps"@).items().len()
    &&& match (node_key(nodes[n]), dependency(nodes[n].member("deps"@).items()[d])) {
        (Some(consumer), Some((alias, _, key))) => {
            &&& m.dom().contains(key)
            &&& edge == Redirect {
                consumer: consumer.0,
                version: consumer.1,
                alias,
                artifact: m[key].path,
            }
        },
        _ => false,
    }
}

/// An edge redirects only where the SDK holds the very version that the
/// project resolved the dependency to, and it redirects to that artifact.
pub proof fn edges_redirect_at_the_resolved_version(
    nodes: Seq<JsonTree>,
    m: Map<Id, Artifact>,
    i: int,
)
    requires
        0 <= i < graph_redirects(nodes, m).len(),
    ensures
        exists|n: int, d: int| #[trigger] edge_at(nodes, m, n, d, graph_redirects(nodes, m)[i]),
    decreases nodes.len(),
{
    let init = nodes.drop_last();
    let before = graph_redirects(init, m);
    let edge = graph_redirects(nodes, m)[i];
    if i < before.len() {
        edges_redirect_at_the_resolved_version(init, m, i);
        let (n, d) = choose|n: int, d: int| #[trigger] edge_at(init, m, n, d, before[i]);
        assert(init[n] == nodes[n]);
        assert(edge_at(nodes, m, n, d, edge));
    } else {
        let node = nodes.last();
        let consumer = node_key(node)->0;
        let deps = node.member("deps"@).items();
        let pick = |dep: JsonTree| dependency_redirect(consumer, dep, m);
        let d = lemma_picked(deps, pick, i - before.len());
        assert(edge_at(nodes, m, nodes.len() - 1, d, edge));
    }
}

/// Every dependency of a crate that resolved to a version the SDK holds
/// redirects.
pub proof fn held_dependencies_redirect(
    nodes: Seq<JsonTree>,
    m: Map<Id, Artifact>,
    n: int,
    d: int,
    edge: Redirect,
)
    requires
        edge_at(nodes, m, n, d, edge),
    ensures
        graph_redirects(nodes, m).contains(edge),
    decreases nodes.len(),
{
    let init = nodes.drop_last();
    let before = graph_redirects(init, m);
    let all = graph_redirects(nodes, m);
    if n < nodes.len() - 1 {
        assert(init[n] == nodes[n]);
        held_dependencies_redirect(init, m, n, d, edge);
        let k = choose|k: int| 0 <= k < before.len() && before[k] == edge;
        assert(all[k] == edge);
    } else {
        let node = nodes.last();
        let consumer = node_key(node)->0;
        let deps = node.member("deps"@).items();
        let pick = |dep: JsonTree| dependency_redirect(consumer, dep, m);
        lemma_kept(deps, pick, d);
        let own = node_redirects(node, m);
        let k = choose|k: int| 0 <= k < own.len() && own[k] == edge;
        assert(all[before.len() + k] == edge);
    }
}

/// Which features an artifact was built with does not decide whether an edge
/// redirects: a crate redirects everywhere or nowhere.
pub proof fn features_do_not_decide(
    nodes: Seq<JsonTree>,
    m: Map<Id, Artifact>,
    other: Map<Id, Artifact>,
)
    requires
        m.dom() == other.dom(),
        forall|id: Id| #[trigger] m.dom().contains(id) ==> m[id].path == other[id].path,
    ensures
        graph_redirects(nodes, m) == graph_redirects(nodes, other),
    decreases nodes.len(),
{
    if nodes.len() > 0 {
        features_do_not_decide(nodes.drop_last(), m, other);
        let node = nodes.last();
        match node_key(node) {
            Some(consumer) => {
                let a = |dep: JsonTree| dependency_redirect(consumer, dep, m);
                let b = |dep: JsonTree| dependency_redirect(consumer, dep, other);
                assert(a =~= b);
            },
            None => {},
        }
    }
}

/// A dependency is short of features where it stands in the graph.
pub open spec fn shortfall_at(
    nodes: Seq<JsonTree>,
    m: Map<Id, Artifact>,
    n: int,
    d: int,
    label: Seq<char>,
    missing: Seq<char>,
) -> bool {
    &&& 0 <= n < nodes.len()
    &&& 0 <= d < nodes[n].member("deps"@).items().len()
    &&& node_key(nodes[n]) is Some
    &&& match dependency(nodes[n].member("deps"@).items()[d]) {
        Some((_, package, key)) => {
            let wanted = resolved_features(nodes, package);
            &&& m.dom().contains(key)
            &&& !covers(m, key, wanted)
            &&& label == key.0 + " "@ + key.1
            &&& missing == shortfall(m, key, wanted)
        },
        None => false,
    }
}

/// A shortfall that was come across is that of a dependency.
proof fn lemma_shortfall_found(
    some: Seq<JsonTree>,
    nodes: Seq<JsonTree>,
    m: Map<Id, Artifact>,
    i: int,
)
    requires
        some.is_prefix_of(nodes),
        0 <= i < graph_shortfalls(some, nodes, m).len(),
    ensures
        ({
            let found = graph_shortfalls(some, nodes, m)[i];
            exists|n: int, d: int| #[trigger] shortfall_at(nodes, m, n, d, found.0, found.1)
        }),
    decreases some.len(),
{
    let init = some.drop_last();
    let before = graph_shortfalls(init, nodes, m);
    let found = graph_shortfalls(some, nodes, m)[i];
    if i < before.len() {
        assert(init =~= nodes.subrange(0, init.len() as int));
        lemma_shortfall_found(init, nodes, m, i);
    } else {
        let node = some.last();
        assert(node == nodes[some.len() - 1]);
        let deps = node.member("deps"@).items();
        let pick = |dep: JsonTree| dependency_shortfall(dep, nodes, m);
        let d = lemma_picked(deps, pick, i - before.len());
        assert(shortfall_at(nodes, m, some.len() - 1, d, found.0, found.1));
    }
}

/// The first value given for a key is one of those given.
proof fn lemma_first_given(s: Seq<(Seq<char>, Seq<char>)>, key: Seq<char>) -> (i: int)
    requires
        first_given(s).dom().contains(key),
    ensures
        0 <= i < s.len(),
        s[i] == (key, first_given(s)[key]),
    decreases s.len(),
{
    let init = s.drop_last();
    if first_given(init).dom().contains(key) {
        let i = lemma_first_given(init, key);
        assert(init[i] == s[i]);
        i
    } else {
        s.len() - 1
    }
}

pub proof fn lemma_first_given_finite(s: Seq<(Seq<char>, Seq<char>)>)
    ensures
        first_given(s).dom().finite(),
    decreases s.len(),
{
    if s.len() > 0 {
        lemma_first_given_finite(s.drop_last());
    }
}

/// A reported shortfall names a crate of the SDK that the project depends on
/// and resolved with features its build lacks, and it names some of them.
pub proof fn reported_shortfalls_are_real(metadata: JsonTree, m: Map<Id, Artifact>, i: int)
    requires
        0 <= i < reported_shortfalls(metadata, m).len(),
    ensures
        ({
            let (label, missing) = reported_shortfalls(metadata, m)[i];
            missing.len() > 0 && exists|n: int, d: int| #[trigger]
                shortfall_at(graph_nodes(metadata), m, n, d, label, missing)
        }),
{
    let nodes = graph_nodes(metadata);
    let all = graph_shortfalls(nodes, nodes, m);
    let found = first_given(all);
    let listed = ascending::<String>(found.dom()).map_values(|k: Seq<char>| (k, found[k]));
    let filled = |e: (Seq<char>, Seq<char>)| e.1.len() > 0;
    let report = reported_shortfalls(metadata, m);
    assert(report == listed.filter(filled));
    listed.lemma_filter_pred(filled, i);
    let e = report[i];
    assert(report.contains(e));
    listed.lemma_filter_contains_rev(filled, e);
    let k = choose|k: int| 0 <= k < listed.len() && listed[k] == e;
    lemma_first_given_finite(all);
    lemma_ascending::<String>(found.dom());
    assert(ascending::<String>(found.dom()).to_set().contains(ascending::<String>(found.dom())[k]));
    let j = lemma_first_given(all, e.0);
    assert(nodes =~= nodes.subrange(0, nodes.len() as int));
    lemma_shortfall_found(nodes, nodes, m, j);
}

/// A package drifts only where the SDK holds one version of it, and that is
/// what it is pinned to.
pub proof fn drift_is_to_the_only_version(package: JsonTree, m: Map<Id, Artifact>)
    requires
        m.dom().finite(),
    ensures
        match package_drift(package, m) {
            Some((name, (from, to))) => {
                &&& package.member("name"@).text() == Some(name)
                &&& package.member("version"@).text() == Some(from)
                &&& versions(m, crate_name(name)).len() == 1
                &&& versions(m, crate_name(name)) == set![(crate_name(name), to)]
                &&& m.dom().contains((crate_name(name), to))
                &&& from != to
            },
            None => true,
        },
{
    match package_drift(package, m) {
        Some((name, (_, to))) => {
            let held = versions(m, crate_name(name));
            m.dom().lemma_len_filter(crate::manifest::is_named(crate_name(name)));
            Set::lemma_is_singleton(held);
            let id = held.choose();
            assert(held.contains(id));
            assert(id == (crate_name(name), to));
            assert forall|x: Id| held.contains(x) implies x == id by {
            }
            assert(held =~= set![(crate_name(name), to)]);
        },
        None => {},
    }
}

/// Whether a package of a graph drifted from one version to another.
pub open spec fn drift_at(
    packages: Seq<JsonTree>,
    m: Map<Id, Artifact>,
    name: Seq<char>,
    from: Seq<char>,
    to: Seq<char>,
    k: int,
) -> bool {
    0 <= k < packages.len() && package_drift(packages[k], m) == Some((name, (from, to)))
}

pub proof fn lemma_drifts(
    packages: Seq<JsonTree>,
    m: Map<Id, Artifact>,
    name: Seq<char>,
    from: Seq<char>,
    to: Seq<char>,
)
    ensures
        drifts(packages, m).dom().finite(),
        (drifts(packages, m).dom().contains((name, from)) && drifts(packages, m)[(name, from)]
            == to) <==> exists|k: int| #[trigger] drift_at(packages, m, name, from, to, k),
    decreases packages.len(),
{
    let all = drifts(packages, m);
    if packages.len() > 0 {
        let init = packages.drop_last();
        let before = drifts(init, m);
        let last = packages.len() - 1;
        lemma_drifts(init, m, name, from, to);
        if all.dom().contains((name, from)) && all[(name, from)] == to {
            if !drift_at(packages, m, name, from, to, last) {
                let k = choose|k: int| #[trigger] drift_at(init, m, name, from, to, k);
                assert(drift_at(packages, m, name, from, to, k));
            }
        }
        if exists|k: int| #[trigger] drift_at(packages, m, name, from, to, k) {
            let k = choose|k: int| #[trigger] drift_at(packages, m, name, from, to, k);
            if k < last {
                assert(drift_at(init, m, name, from, to, k));
                // A later package of that name and version drifts to the same.
                match package_drift(packages[last], m) {
                    Some((other, (version, target))) => if other == name && version == from {
                        assert(target == to);
                    },
                    None => {},
                }
            }
        }
    }
}

/// Every package that drifted is listed to be pinned, each of its versions on
/// its own, and no other is.
pub proof fn every_drift_is_listed(
    packages: Seq<JsonTree>,
    m: Map<Id, Artifact>,
    name: Seq<char>,
    from: Seq<char>,
    to: Seq<char>,
)
    ensures
        drift_list(drifts(packages, m)).contains((name, (from, to))) <==> exists|k: int| #[trigger]
            drift_at(packages, m, name, from, to, k),
{
    lemma_drifts(packages, m, name, from, to);
    let found = drifts(packages, m);
    let ids = ascending::<(String, String)>(found.dom());
    let list = drift_list(found);
    lemma_ascending::<(String, String)>(found.dom());
    if list.contains((name, (from, to))) {
        let k = choose|k: int| 0 <= k < list.len() && list[k] == (name, (from, to));
        assert(ids.to_set().contains(ids[k]));
    }
    if found.dom().contains((name, from)) && found[(name, from)] == to {
        assert(ids.to_set().contains((name, from)));
        let k = choose|k: int| 0 <= k < ids.len() && ids[k] == (name, from);
        assert(list[k] == (name, (from, to)));
    }
}

/// A package at the SDK's own version does not drift.
pub proof fn a_pinned_package_does_not_drift(
    package: JsonTree,
    m: Map<Id, Artifact>,
    name: Seq<char>,
    version: Seq<char>,
)
    requires
        package.member("name"@).text() == Some(name),
        package.member("version"@).text() == Some(version),
        only_version(m, crate_name(name)) == Some(version),
    ensures
        package_drift(package, m) is None,
{
}

/// An absolute artifact resolves to itself, on its host.
pub proof fn absolute_paths_are_used_as_they_stand(
    unix: bool,
    artifact: Seq<char>,
    deps_dir: Seq<char>,
    r: Seq<char>,
)
    requires
        readable(unix, artifact),
        absolute_of(unix, artifact),
        join_on(unix, deps_dir, artifact, r),
    ensures
        r == artifact,
{
}

/// An artifact given from the root resolves to itself: it is used as it
/// stands, whichever host reads it. A directory with a drive or a share could
/// lend its own.
pub proof fn rooted_paths_are_used_as_they_stand(
    artifact: Seq<char>,
    deps_dir: Seq<char>,
    r: Seq<char>,
)
    requires
        artifact.len() > 0,
        artifact[0] == '/',
        !shared(deps_dir),
        !has_colon(deps_dir),
        join_fact(deps_dir, artifact, r),
    ensures
        r == artifact,
{
}

/// A relative artifact, such as a bare name, resolves to a path in the SDK's
/// directory, wherever that is; it is never used as it stands.
pub proof fn relative_names_are_rebased(artifact: Seq<char>, deps_dir: Seq<char>, r: Seq<char>)
    requires
        relative(artifact),
        !verbatim(deps_dir),
        has_colon(deps_dir) ==> is_letter(deps_dir[0]),
        join_fact(deps_dir, artifact, r),
    ensures
        r == deps_dir + artifact || r == deps_dir + seq!['/'] + artifact || r == deps_dir + seq![
            '\\',
        ] + artifact,
        deps_dir.len() > 0 ==> r.len() > artifact.len(),
{
}

/// Two manifests that differ only in the features of their artifacts give the
/// same plans: as many edges, and whatever contents one can give, the other
/// can.
pub proof fn features_do_not_change_the_plan(
    nodes: Seq<JsonTree>,
    m: Map<Id, Artifact>,
    other: Map<Id, Artifact>,
    deps_dir: Seq<char>,
    contents: Seq<char>,
)
    requires
        m.dom() == other.dom(),
        forall|id: Id| #[trigger] m.dom().contains(id) ==> m[id].path == other[id].path,
    ensures
        graph_redirects(nodes, m).len() == graph_redirects(nodes, other).len(),
        is_plan(graph_redirects(nodes, m), deps_dir, contents) <==> is_plan(
            graph_redirects(nodes, other),
            deps_dir,
            contents,
        ),
{
    features_do_not_decide(nodes, m, other);
}

/// Whether artifacts are resolved by one host, which is known to join each to
/// the directory.
pub open spec fn resolved_on(
    unix: bool,
    edges: Seq<Redirect>,
    deps_dir: Seq<char>,
    resolved: Seq<Seq<char>>,
) -> bool {
    &&& resolved.len() == edges.len()
    &&& forall|i: int|
        0 <= i < edges.len() ==> joinable(unix, deps_dir, edges[i].artifact) && join_on(
            unix,
            deps_dir,
            edges[i].artifact,
            #[trigger] resolved[i],
        )
}

/// On one host a plan that is made twice is the same. Its file holds the
/// bytes already, and is not written again.
pub proof fn a_second_plan_is_not_written(
    unix: bool,
    edges: Seq<Redirect>,
    deps_dir: Seq<char>,
    resolved: Seq<Seq<char>>,
    again: Seq<Seq<char>>,
)
    requires
        resolved_on(unix, edges, deps_dir, resolved),
        resolved_on(unix, edges, deps_dir, again),
    ensures
        resolved == again,
        ({
            let written = vstd::utf8::encode_utf8(terminated(plan_lines(edges, resolved)));
            !is_stale(Some(written), terminated(plan_lines(edges, again)))
        }),
{
    assert forall|i: int| 0 <= i < edges.len() implies resolved[i] == again[i] by {
        assert(join_on(unix, deps_dir, edges[i].artifact, resolved[i]));
        assert(join_on(unix, deps_dir, edges[i].artifact, again[i]));
    }
    assert(resolved =~= again);
}

/// Whether every host joins an artifact to a directory alike.
pub open spec fn joined_alike(deps_dir: Seq<char>, artifact: Seq<char>) -> bool {
    joinable(false, deps_dir, artifact) && joined_of(true, deps_dir, artifact) == joined_of(
        false,
        deps_dir,
        artifact,
    )
}

/// Where every host joins the artifacts to the directory alike, a plan that
/// is made twice is the same, whatever the host.
pub proof fn a_second_plan_is_the_same(
    edges: Seq<Redirect>,
    deps_dir: Seq<char>,
    contents: Seq<char>,
    again: Seq<char>,
)
    requires
        forall|i: int|
            0 <= i < edges.len() ==> joined_alike(deps_dir, (#[trigger] edges[i]).artifact),
        is_plan(edges, deps_dir, contents),
        is_plan(edges, deps_dir, again),
    ensures
        contents == again,
        !is_stale(Some(vstd::utf8::encode_utf8(contents)), again),
{
    let a = choose|a: Seq<Seq<char>>| #[trigger]
        resolutions(edges, deps_dir, a) && contents == terminated(plan_lines(edges, a));
    let b = choose|b: Seq<Seq<char>>| #[trigger]
        resolutions(edges, deps_dir, b) && again == terminated(plan_lines(edges, b));
    assert forall|i: int| 0 <= i < edges.len() implies a[i] == b[i] by {
        assert(joined_alike(deps_dir, edges[i].artifact));
        assert(join_fact(deps_dir, edges[i].artifact, a[i]));
        assert(join_fact(deps_dir, edges[i].artifact, b[i]));
    }
    assert(a =~= b);
}

/// Artifacts given from the root are joined alike to a directory without a
/// drive or a share, and relative ones to one that ends in `/`.
pub proof fn these_are_joined_alike(deps_dir: Seq<char>, artifact: Seq<char>)
    requires
        !shared(deps_dir),
        !has_colon(deps_dir),
        artifact.len() > 0 && artifact[0] == '/' || relative(artifact) && deps_dir.len() > 0
            && deps_dir.last() == '/',
    ensures
        joined_alike(deps_dir, artifact),
{
}

} // verus!
