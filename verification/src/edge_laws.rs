//! What holds of plans and of lock alignment, told by the members of the
//! documents they are made from.

use vstd::prelude::*;
use crate::host::join_fact;
use crate::json::JsonTree;
use crate::json_laws::{a_string_is_listed_when_an_item_is, lemma_picked_concat, lemma_picked_one};
use crate::manifest::{only_version, Artifact, Id};
use crate::order::pair_precedes;
use crate::package_id::{crate_name, id_name, id_version};
use crate::plan::{dependency, dependency_redirect, dependency_shortfall, drift_list, drift_views, drifts, first_given, graph_nodes, graph_redirects, graph_shortfalls, is_plan, is_stale, node_key, node_redirects, node_shortfalls, package_drift, pair_texts, plan_line, plan_lines, redirects, reported_shortfalls, resolution, resolutions, resolved_features, Drift, Edge, Redirect};
use crate::plan_laws::{every_drift_is_listed, lemma_first_given_finite, lemma_kept, lemma_picked};
use crate::text::{join, terminated};
use crate::text_laws::{ascending_pairs_are_in_order, ascending_texts_are_in_order};

verus! {

/// An edge, a drifted package and their lists are seen field by field, in
/// their order.
pub proof fn edges_and_drifts_are_seen_as_they_are(
    edge: Edge,
    drift: Drift,
    edges: Seq<Edge>,
    list: Seq<Drift>,
    pairs: Seq<(String, String)>,
)
    ensures
        edge@.consumer == edge.consumer@,
        edge@.version == edge.version@,
        edge@.alias == edge.alias@,
        edge@.artifact == edge.artifact@,
        drift@ == (drift.name@, (drift.from@, drift.to@)),
        redirects(edges).len() == edges.len(),
        forall|i: int| 0 <= i < edges.len() ==> (#[trigger] redirects(edges)[i]) == edges[i]@,
        drift_views(list).len() == list.len(),
        forall|i: int| 0 <= i < list.len() ==> (#[trigger] drift_views(list)[i]) == list[i]@,
        pair_texts(pairs).len() == pairs.len(),
        forall|i: int|
            0 <= i < pairs.len() ==> (#[trigger] pair_texts(pairs)[i]) == (
                pairs[i].0@,
                pairs[i].1@,
            ),
{
}

/// The graph of a document is the list in its member `nodes` of `resolve`.
pub proof fn the_graph_is_the_list_of_nodes(
    metadata: JsonTree,
    resolve: JsonTree,
    nodes: Seq<JsonTree>,
)
    requires
        metadata.member("resolve"@) == resolve,
        resolve.member("nodes"@) == JsonTree::List(nodes),
    ensures
        graph_nodes(metadata) == nodes,
{
}

/// A document without such a list has no graph.
pub proof fn without_a_list_there_is_no_graph(metadata: JsonTree)
    requires
        !(metadata.member("resolve"@).member("nodes"@) is List),
    ensures
        graph_nodes(metadata).len() == 0,
{
}

/// A dependency is read from its members `name` and `pkg` alone: both must be
/// texts, and the second the id of a package. Other members do not matter.
pub proof fn a_dependency_is_read_from_name_and_package(dep: JsonTree)
    ensures
        dependency(dep) is Some <==> {
            &&& dep.member("name"@) is Text
            &&& dep.member("pkg"@) is Text
            &&& id_name(dep.member("pkg"@)->Text_0) is Some
            &&& id_version(dep.member("pkg"@)->Text_0) is Some
        },
        dependency(dep) matches Some((alias, package, (name, version))) ==> {
            &&& dep.member("name"@) == JsonTree::Text(alias)
            &&& dep.member("pkg"@) == JsonTree::Text(package)
            &&& id_name(package) == Some(name)
            &&& id_version(package) == Some(version)
        },
{
}

/// Two dependencies with the same `name` and `pkg` are the same, whatever
/// else they list.
pub proof fn other_members_of_a_dependency_do_not_matter(
    dep: JsonTree,
    other: JsonTree,
    consumer: Id,
    nodes: Seq<JsonTree>,
    m: Map<Id, Artifact>,
)
    requires
        dep.member("name"@) == other.member("name"@),
        dep.member("pkg"@) == other.member("pkg"@),
    ensures
        dependency(dep) == dependency(other),
        dependency_redirect(consumer, dep, m) == dependency_redirect(consumer, other, m),
        dependency_shortfall(dep, nodes, m) == dependency_shortfall(other, nodes, m),
{
}

/// Whether a dependency of a node is the package `(name, version)` under the
/// alias, told by the members of the documents.
pub open spec fn depends(
    node: JsonTree,
    d: int,
    alias: Seq<char>,
    package: Seq<char>,
    name: Seq<char>,
    version: Seq<char>,
) -> bool {
    &&& node.member("deps"@) is List
    &&& 0 <= d < node.member("deps"@)->List_0.len()
    &&& node.member("deps"@)->List_0[d].member("name"@) == JsonTree::Text(alias)
    &&& node.member("deps"@)->List_0[d].member("pkg"@) == JsonTree::Text(package)
    &&& id_name(package) == Some(name)
    &&& id_version(package) == Some(version)
}

/// Whether a node is the crate `(name, version)`, told by its member `id`.
pub open spec fn is_crate(node: JsonTree, name: Seq<char>, version: Seq<char>) -> bool {
    &&& node.member("id"@) is Text
    &&& id_name(node.member("id"@)->Text_0) == Some(name)
    &&& id_version(node.member("id"@)->Text_0) == Some(version)
}

/// Whether an edge is that of a dependency which the SDK holds.
pub open spec fn is_held_edge(
    node: JsonTree,
    d: int,
    m: Map<Id, Artifact>,
    package: Seq<char>,
    name: Seq<char>,
    version: Seq<char>,
    edge: Redirect,
) -> bool {
    &&& is_crate(node, edge.consumer, edge.version)
    &&& depends(node, d, edge.alias, package, name, version)
    &&& m.dom().contains((name, version))
    &&& edge.artifact == m[(name, version)].path
}

/// Every dependency on a package that the SDK holds has its edge in the plan,
/// from its crate under its alias to the artifact of that very version.
pub proof fn every_held_dependency_has_its_edge(
    nodes: Seq<JsonTree>,
    m: Map<Id, Artifact>,
    n: int,
    d: int,
    package: Seq<char>,
    name: Seq<char>,
    version: Seq<char>,
    edge: Redirect,
)
    requires
        0 <= n < nodes.len(),
        is_held_edge(nodes[n], d, m, package, name, version, edge),
    ensures
        graph_redirects(nodes, m).contains(edge),
    decreases nodes.len(),
{
    let before = graph_redirects(nodes.drop_last(), m);
    let own = node_redirects(nodes.last(), m);
    let all = graph_redirects(nodes, m);
    if n < nodes.len() - 1 {
        assert(nodes.drop_last()[n] == nodes[n]);
        every_held_dependency_has_its_edge(
            nodes.drop_last(),
            m,
            n,
            d,
            package,
            name,
            version,
            edge,
        );
        let k = choose|k: int| 0 <= k < before.len() && before[k] == edge;
        assert(all[k] == edge);
    } else {
        let consumer = (edge.consumer, edge.version);
        let deps = nodes[n].member("deps"@).items();
        let pick = |dep: JsonTree| dependency_redirect(consumer, dep, m);
        assert(node_key(nodes[n]) == Some(consumer));
        assert(pick(deps[d]) == Some(edge));
        lemma_kept(deps, pick, d);
        let k = choose|k: int| 0 <= k < own.len() && own[k] == edge;
        assert(all[before.len() + k] == edge);
    }
}

/// Every edge of the plan is that of a dependency on a package that the SDK
/// holds.
pub proof fn every_edge_is_that_of_a_held_dependency(
    nodes: Seq<JsonTree>,
    m: Map<Id, Artifact>,
    i: int,
)
    requires
        0 <= i < graph_redirects(nodes, m).len(),
    ensures
        exists|
            n: int,
            d: int,
            package: Seq<char>,
            name: Seq<char>,
            version: Seq<char>,
        |
            0 <= n < nodes.len() && #[trigger] is_held_edge(
                nodes[n],
                d,
                m,
                package,
                name,
                version,
                graph_redirects(nodes, m)[i],
            ),
    decreases nodes.len(),
{
    let init = nodes.drop_last();
    let before = graph_redirects(init, m);
    let edge = graph_redirects(nodes, m)[i];
    if i < before.len() {
        every_edge_is_that_of_a_held_dependency(init, m, i);
        let (n, d, package, name, version) = choose|
            n: int,
            d: int,
            package: Seq<char>,
            name: Seq<char>,
            version: Seq<char>,
        |
            0 <= n < init.len() && #[trigger] is_held_edge(
                init[n],
                d,
                m,
                package,
                name,
                version,
                before[i],
            );
        assert(init[n] == nodes[n]);
        assert(is_held_edge(nodes[n], d, m, package, name, version, edge));
    } else {
        let node = nodes[nodes.len() - 1];
        let consumer = node_key(node)->0;
        let deps = node.member("deps"@).items();
        let pick = |dep: JsonTree| dependency_redirect(consumer, dep, m);
        let d = lemma_picked(deps, pick, i - before.len());
        let (_, package, key) = dependency(deps[d])->0;
        assert(is_held_edge(node, d, m, package, key.0, key.1, edge));
    }
}

/// Graphs are planned node by node, in their order.
pub proof fn graphs_are_planned_node_by_node(
    a: Seq<JsonTree>,
    b: Seq<JsonTree>,
    m: Map<Id, Artifact>,
)
    ensures
        graph_redirects(a + b, m) == graph_redirects(a, m) + graph_redirects(b, m),
        graph_redirects(seq![], m) == Seq::<Redirect>::empty(),
    decreases b.len(),
{
    if b.len() == 0 {
        assert(a + b =~= a);
        assert(graph_redirects(a, m) + graph_redirects(b, m) =~= graph_redirects(a, m));
    } else {
        graphs_are_planned_node_by_node(a, b.drop_last(), m);
        assert((a + b).drop_last() =~= a + b.drop_last());
        assert((a + b).last() == b.last());
        assert(graph_redirects(a + b, m) =~= graph_redirects(a, m) + graph_redirects(b, m));
    }
}

/// A node is planned dependency by dependency, in their order: each gives one
/// edge where the SDK holds it, and none where it does not.
pub proof fn nodes_are_planned_dependency_by_dependency(
    whole: JsonTree,
    first: JsonTree,
    rest: JsonTree,
    deps: Seq<JsonTree>,
    more: Seq<JsonTree>,
    m: Map<Id, Artifact>,
)
    requires
        whole.member("id"@) == first.member("id"@),
        whole.member("id"@) == rest.member("id"@),
        first.member("deps"@) == JsonTree::List(deps),
        rest.member("deps"@) == JsonTree::List(more),
        whole.member("deps"@) == JsonTree::List(deps + more),
    ensures
        graph_redirects(seq![whole], m) == graph_redirects(seq![first], m) + graph_redirects(
            seq![rest],
            m,
        ),
        deps.len() == 0 ==> graph_redirects(seq![first], m).len() == 0,
        deps.len() == 1 ==> graph_redirects(seq![first], m).len() <= 1,
{
    lemma_one_node(whole, m);
    lemma_one_node(first, m);
    lemma_one_node(rest, m);
    match node_key(whole) {
        Some(consumer) => {
            let pick = |dep: JsonTree| dependency_redirect(consumer, dep, m);
            lemma_picked_concat(deps, more, pick);
            if deps.len() == 1 {
                assert(deps =~= seq![deps[0]]);
                lemma_picked_one(deps[0], pick);
            }
            reveal(Seq::filter_map);
        },
        None => {
            assert(Seq::<Redirect>::empty() + Seq::<Redirect>::empty() =~= Seq::<
                Redirect,
            >::empty());
        },
    }
}

proof fn lemma_one_node(node: JsonTree, m: Map<Id, Artifact>)
    ensures
        graph_redirects(seq![node], m) == node_redirects(node, m),
{
    assert(seq![node].drop_last() =~= Seq::<JsonTree>::empty());
    assert(seq![node].last() == node);
    assert(graph_redirects(seq![], m) =~= Seq::<Redirect>::empty());
    assert(graph_redirects(seq![node], m) =~= node_redirects(node, m));
}

/// The features that a project resolved for a package are the strings that
/// the last node of that id lists.
pub proof fn resolved_features_are_those_of_the_last_node(
    before: Seq<JsonTree>,
    node: JsonTree,
    after: Seq<JsonTree>,
    package: Seq<char>,
)
    requires
        node.member("id"@) == JsonTree::Text(package),
        forall|i: int|
            0 <= i < after.len() ==> (#[trigger] after[i]).member("id"@) != JsonTree::Text(package),
    ensures
        forall|f: Seq<char>|
            #[trigger] resolved_features(before + seq![node] + after, package).contains(f)
                <==> exists|k: int|
                node.member("features"@) is List && 0 <= k < node.member("features"@)->List_0.len()
                    && (#[trigger] node.member("features"@)->List_0[k]) == JsonTree::Text(f),
        resolved_features(after, package) == Set::<Seq<char>>::empty(),
    decreases after.len(),
{
    let all = before + seq![node] + after;
    if after.len() > 0 {
        let rest = after.drop_last();
        assert forall|i: int| 0 <= i < rest.len() implies (#[trigger] rest[i]).member("id"@)
            != JsonTree::Text(package) by {
            assert(after[i].member("id"@) != JsonTree::Text(package));
        }
        resolved_features_are_those_of_the_last_node(before, node, rest, package);
        assert(after[after.len() - 1].member("id"@) != JsonTree::Text(package));
        assert(all.last() == after.last());
        assert(all.drop_last() =~= before + seq![node] + rest);
        assert(resolved_features(all, package) == resolved_features(
            before + seq![node] + rest,
            package,
        ));
    } else {
        assert(all.last() == node);
        let listed = node.member("features"@);
        assert forall|f: Seq<char>| #[trigger]
            resolved_features(all, package).contains(f) <==> exists|k: int|
                listed is List && 0 <= k < listed->List_0.len() && (#[trigger] listed->List_0[k])
                    == JsonTree::Text(f) by {
            a_string_is_listed_when_an_item_is(listed, f);
            assert(listed.text_items().to_set().contains(f) <==> listed.text_items().contains(f));
        }
    }
}

/// Whether a feature is one that a build lacks.
pub open spec fn lacks(
    m: Map<Id, Artifact>,
    id: Id,
    wanted: Set<Seq<char>>,
    f: Seq<char>,
) -> bool {
    wanted.contains(f) && !m[id].features.contains(f)
}

/// What a list of features must be to name exactly those that a build lacks:
/// each once, in dictionary order, with commas between them.
pub open spec fn names_what_is_lacking(
    m: Map<Id, Artifact>,
    id: Id,
    wanted: Set<Seq<char>>,
    text: Seq<char>,
) -> bool {
    exists|list: Seq<Seq<char>>|
        {
            &&& text == #[trigger] join(list, seq![','])
            &&& forall|f: Seq<char>| list.contains(f) <==> lacks(m, id, wanted, f)
            &&& forall|i: int, j: int|
                0 <= i < j < list.len() ==> crate::order::text_precedes(list[i], list[j])
        }
}

/// A dependency is short of features exactly when the SDK holds its package
/// and the build lacks one that the project resolved. It is reported under
/// the name and the version of the crate, with the features that are lacking.
pub proof fn a_shortfall_names_what_is_lacking(
    dep: JsonTree,
    nodes: Seq<JsonTree>,
    m: Map<Id, Artifact>,
    alias: Seq<char>,
    package: Seq<char>,
    name: Seq<char>,
    version: Seq<char>,
)
    requires
        dep.member("name"@) == JsonTree::Text(alias),
        dep.member("pkg"@) == JsonTree::Text(package),
        id_name(package) == Some(name),
        id_version(package) == Some(version),
        resolved_features(nodes, package).finite(),
    ensures
        dependency_shortfall(dep, nodes, m) is Some <==> {
            &&& m.dom().contains((name, version))
            &&& exists|f: Seq<char>| #[trigger]
                lacks(m, (name, version), resolved_features(nodes, package), f)
        },
        dependency_shortfall(dep, nodes, m) matches Some((label, missing)) ==> {
            &&& label == name + seq![' '] + version
            &&& names_what_is_lacking(
                m,
                (name, version),
                resolved_features(nodes, package),
                missing,
            )
        },
{
    reveal_strlit(" ");
    reveal_strlit(",");
    assert(" "@ =~= seq![' ']);
    assert(","@ =~= seq![',']);
    let id = (name, version);
    let wanted = resolved_features(nodes, package);
    if m.dom().contains(id) {
        let gap = wanted.difference(m[id].features);
        ascending_texts_are_in_order(gap);
        let list = crate::order::ascending::<String>(gap);
        assert forall|f: Seq<char>| list.contains(f) <==> lacks(m, id, wanted, f) by {
            assert(gap.contains(f) <==> lacks(m, id, wanted, f));
        }
        assert(join(list, seq![',']) == join(list, ","@));
        if wanted.subset_of(m[id].features) {
            assert forall|f: Seq<char>| !#[trigger] lacks(m, id, wanted, f) by {
            }
        } else {
            let f = choose|f: Seq<char>| wanted.contains(f) && !m[id].features.contains(f);
            assert(lacks(m, id, wanted, f));
        }
    }
}

/// The resolved features of a package are finitely many.
pub proof fn resolved_features_are_finite(nodes: Seq<JsonTree>, package: Seq<char>)
    ensures
        resolved_features(nodes, package).finite(),
    decreases nodes.len(),
{
    if nodes.len() > 0 {
        vstd::seq_lib::seq_to_set_is_finite(nodes.last().member("features"@).text_items());
        resolved_features_are_finite(nodes.drop_last(), package);
    }
}

/// Shortfalls are come across dependency by dependency of the nodes that are
/// crates, in their order.
pub proof fn shortfalls_are_found_in_order(
    a: Seq<JsonTree>,
    b: Seq<JsonTree>,
    node: JsonTree,
    nodes: Seq<JsonTree>,
    m: Map<Id, Artifact>,
)
    ensures
        graph_shortfalls(a + b, nodes, m) == graph_shortfalls(a, nodes, m) + graph_shortfalls(
            b,
            nodes,
            m,
        ),
        (node.member("id"@) is Text && id_name(node.member("id"@)->Text_0) is Some && id_version(
            node.member("id"@)->Text_0,
        ) is Some) ==> graph_shortfalls(seq![node], nodes, m) == node.member(
            "deps"@,
        ).items().filter_map(|dep: JsonTree| dependency_shortfall(dep, nodes, m)),
    decreases b.len(),
{
    assert(seq![node].drop_last() =~= Seq::<JsonTree>::empty());
    assert(seq![node].last() == node);
    assert(graph_shortfalls(seq![], nodes, m) =~= Seq::<(Seq<char>, Seq<char>)>::empty());
    assert(graph_shortfalls(seq![node], nodes, m) =~= node_shortfalls(node, nodes, m));
    if b.len() == 0 {
        assert(a + b =~= a);
        assert(graph_shortfalls(a, nodes, m) + graph_shortfalls(b, nodes, m) =~= graph_shortfalls(
            a,
            nodes,
            m,
        ));
    } else {
        shortfalls_are_found_in_order(a, b.drop_last(), node, nodes, m);
        assert((a + b).drop_last() =~= a + b.drop_last());
        assert((a + b).last() == b.last());
        assert(graph_shortfalls(a + b, nodes, m) =~= graph_shortfalls(a, nodes, m)
            + graph_shortfalls(b, nodes, m));
    }
}

/// A key has the value that it was given first, and none where it was not.
pub proof fn the_first_value_given_stays(
    before: Seq<(Seq<char>, Seq<char>)>,
    key: Seq<char>,
    value: Seq<char>,
    after: Seq<(Seq<char>, Seq<char>)>,
)
    requires
        forall|i: int| 0 <= i < before.len() ==> (#[trigger] before[i]).0 != key,
    ensures
        first_given(before + seq![(key, value)] + after).dom().contains(key),
        first_given(before + seq![(key, value)] + after)[key] == value,
        !first_given(before).dom().contains(key),
    decreases before.len() + after.len(),
{
    let all = before + seq![(key, value)] + after;
    if before.len() > 0 {
        let rest = before.drop_last();
        assert forall|i: int| 0 <= i < rest.len() implies (#[trigger] rest[i]).0 != key by {
            assert(before[i].0 != key);
        }
        the_first_value_given_stays(rest, key, value, seq![]);
        assert(before[before.len() - 1].0 != key);
    }
    if after.len() > 0 {
        the_first_value_given_stays(before, key, value, after.drop_last());
        assert(all.drop_last() =~= before + seq![(key, value)] + after.drop_last());
        assert(all.last() == after.last());
        let earlier = first_given(before + seq![(key, value)] + after.drop_last());
        assert(first_given(all)[key] == earlier[key]);
    } else {
        assert(all.drop_last() =~= before);
        assert(all.last() == (key, value));
        assert(first_given(all) == first_given(before).insert(key, value));
    }
}

/// The report lists the crates whose first shortfall is not empty, each once
/// and in dictionary order.
pub proof fn the_report_lists_what_was_given_first(
    metadata: JsonTree,
    m: Map<Id, Artifact>,
    label: Seq<char>,
    missing: Seq<char>,
)
    ensures
        ({
            let nodes = graph_nodes(metadata);
            let found = first_given(graph_shortfalls(nodes, nodes, m));
            let report = reported_shortfalls(metadata, m);
            &&& report.contains((label, missing)) <==> missing.len() > 0 && found.dom().contains(
                label,
            ) && found[label] == missing
            &&& forall|i: int, j: int|
                0 <= i < j < report.len() ==> crate::order::text_precedes(
                    (#[trigger] report[i]).0,
                    (#[trigger] report[j]).0,
                )
        }),
{
    let nodes = graph_nodes(metadata);
    let all = graph_shortfalls(nodes, nodes, m);
    let found = first_given(all);
    lemma_first_given_finite(all);
    ascending_texts_are_in_order(found.dom());
    let keys = crate::order::ascending::<String>(found.dom());
    let listed = keys.map_values(|k: Seq<char>| (k, found[k]));
    let filled = |e: (Seq<char>, Seq<char>)| e.1.len() > 0;
    let report = reported_shortfalls(metadata, m);
    assert(report == listed.filter(filled));
    if report.contains((label, missing)) {
        let i = choose|i: int| 0 <= i < report.len() && report[i] == (label, missing);
        listed.lemma_filter_pred(filled, i);
        listed.lemma_filter_contains_rev(filled, (label, missing));
        let k = choose|k: int| 0 <= k < listed.len() && listed[k] == (label, missing);
        assert(keys.contains(keys[k]));
    }
    if missing.len() > 0 && found.dom().contains(label) && found[label] == missing {
        assert(keys.contains(label));
        let k = choose|k: int| 0 <= k < keys.len() && keys[k] == label;
        assert(listed[k] == (label, missing));
        listed.lemma_filter_contains(filled, k);
    }
    lemma_filtered_in_order(listed, filled);
}

/// A filter keeps pairs in the order of their first parts.
proof fn lemma_filtered_in_order(
    s: Seq<(Seq<char>, Seq<char>)>,
    pred: spec_fn((Seq<char>, Seq<char>)) -> bool,
)
    requires
        forall|i: int, j: int|
            0 <= i < j < s.len() ==> crate::order::text_precedes(
                (#[trigger] s[i]).0,
                (#[trigger] s[j]).0,
            ),
    ensures
        forall|i: int, j: int|
            0 <= i < j < s.filter(pred).len() ==> crate::order::text_precedes(
                (#[trigger] s.filter(pred)[i]).0,
                (#[trigger] s.filter(pred)[j]).0,
            ),
    decreases s.len(),
{
    reveal(Seq::filter);
    if s.len() > 0 {
        let init = s.drop_last();
        assert forall|i: int, j: int| 0 <= i < j < init.len() implies crate::order::text_precedes(
            (#[trigger] init[i]).0,
            (#[trigger] init[j]).0,
        ) by {
            assert(init[i] == s[i] && init[j] == s[j]);
        }
        lemma_filtered_in_order(init, pred);
        let kept = init.filter(pred);
        let all = s.filter(pred);
        assert forall|i: int, j: int| 0 <= i < j < all.len() implies crate::order::text_precedes(
            (#[trigger] all[i]).0,
            (#[trigger] all[j]).0,
        ) by {
            assert(all[i] == kept[i]);
            if j < kept.len() {
                assert(all[j] == kept[j]);
            } else {
                assert(kept.contains(kept[i]));
                init.lemma_filter_contains_rev(pred, kept[i]);
                let k = choose|k: int| 0 <= k < init.len() && init[k] == kept[i];
                assert(s[k] == kept[i]);
                assert(all[j] == s[s.len() - 1]);
            }
        }
    }
}

/// A package drifts exactly when the SDK holds its crate at one version and
/// that is another, older or newer: from its own version to that one.
pub proof fn a_package_drifts_when_the_one_version_is_another(
    package: JsonTree,
    m: Map<Id, Artifact>,
    name: Seq<char>,
    version: Seq<char>,
)
    requires
        package.member("name"@) == JsonTree::Text(name),
        package.member("version"@) == JsonTree::Text(version),
    ensures
        forall|held: Seq<char>|
            #[trigger] only_version(m, crate_name(name)) == Some(held) && held != version
                ==> package_drift(package, m) == Some((name, (version, held))),
        only_version(m, crate_name(name)) == Some(version) ==> package_drift(package, m) is None,
        only_version(m, crate_name(name)) is None ==> package_drift(package, m) is None,
{
}

/// A package without a name or without a version does not drift.
pub proof fn a_package_without_a_name_does_not_drift(package: JsonTree, m: Map<Id, Artifact>)
    requires
        !(package.member("name"@) is Text) || !(package.member("version"@) is Text),
    ensures
        package_drift(package, m) is None,
{
}

/// A drifted package is listed to be pinned to the one version that the SDK
/// holds, whichever of the two is older; the list is in order of names, then
/// of versions.
pub proof fn a_drifted_package_is_pinned(
    packages: Seq<JsonTree>,
    m: Map<Id, Artifact>,
    k: int,
    name: Seq<char>,
    version: Seq<char>,
    held: Seq<char>,
)
    requires
        m.dom().finite(),
        0 <= k < packages.len(),
        packages[k].member("name"@) == JsonTree::Text(name),
        packages[k].member("version"@) == JsonTree::Text(version),
        m.dom().contains((crate_name(name), held)),
        forall|id: Id| #[trigger] m.dom().contains(id) && id.0 == crate_name(name) ==> id.1 == held,
        held != version,
    ensures
        drift_list(drifts(packages, m)).contains((name, (version, held))),
        forall|i: int, j: int|
            0 <= i < j < drift_list(drifts(packages, m)).len() ==> pair_precedes(
                (
                    (#[trigger] drift_list(drifts(packages, m))[i]).0,
                    drift_list(drifts(packages, m))[i].1.0,
                ),
                (
                    (#[trigger] drift_list(drifts(packages, m))[j]).0,
                    drift_list(drifts(packages, m))[j].1.0,
                ),
            ),
{
    crate::manifest_laws::one_version_is_the_only_one(m, crate_name(name), held);
    a_package_drifts_when_the_one_version_is_another(packages[k], m, name, version);
    assert(crate::plan_laws::drift_at(packages, m, name, version, held, k));
    every_drift_is_listed(packages, m, name, version, held);
    crate::plan_laws::lemma_drifts(packages, m, name, version, held);
    ascending_pairs_are_in_order(drifts(packages, m).dom());
}

/// How an edge is written: its consumer with the version, the alias and the
/// resolved artifact.
pub proof fn an_edge_is_written_on_one_line(edge: Redirect, resolved: Seq<char>)
    ensures
        plan_line(edge, resolved) == edge.consumer + seq!['@'] + edge.version + seq![':']
            + edge.alias + seq!['='] + resolved,
{
    reveal_strlit("@");
    reveal_strlit(":");
    reveal_strlit("=");
    assert(plan_line(edge, resolved) =~= edge.consumer + seq!['@'] + edge.version + seq![':']
        + edge.alias + seq!['='] + resolved);
}

/// Lines that hold one edge each, in their order, with the artifact resolved
/// as a host joins it to the directory.
pub open spec fn lines_of_edges(
    edges: Seq<Redirect>,
    deps_dir: Seq<char>,
    resolved: Seq<Seq<char>>,
    ls: Seq<Seq<char>>,
) -> bool {
    &&& ls.len() == edges.len()
    &&& resolved.len() == edges.len()
    &&& forall|i: int|
        0 <= i < edges.len() ==> join_fact(deps_dir, edges[i].artifact, #[trigger] resolved[i])
    &&& forall|i: int|
        0 <= i < edges.len() ==> (#[trigger] ls[i]) == edges[i].consumer + seq!['@']
            + edges[i].version + seq![':'] + edges[i].alias + seq!['='] + resolved[i]
}

/// A plan is such lines, each ended by a line feed, and every such text is a
/// plan.
pub proof fn a_plan_has_a_line_for_each_edge(
    edges: Seq<Redirect>,
    deps_dir: Seq<char>,
    contents: Seq<char>,
)
    ensures
        is_plan(edges, deps_dir, contents) <==> exists|
            resolved: Seq<Seq<char>>,
            ls: Seq<Seq<char>>,
        | #[trigger]
            lines_of_edges(edges, deps_dir, resolved, ls) && contents == terminated(ls),
{
    if is_plan(edges, deps_dir, contents) {
        let resolved = choose|resolved: Seq<Seq<char>>| #[trigger]
            resolutions(edges, deps_dir, resolved) && contents == terminated(
                plan_lines(edges, resolved),
            );
        let ls = plan_lines(edges, resolved);
        assert forall|i: int| 0 <= i < edges.len() implies (#[trigger] ls[i]) == edges[i].consumer
            + seq!['@'] + edges[i].version + seq![':'] + edges[i].alias + seq!['=']
            + resolved[i] by {
            an_edge_is_written_on_one_line(edges[i], resolved[i]);
        }
        assert(lines_of_edges(edges, deps_dir, resolved, ls));
    }
    if exists|resolved: Seq<Seq<char>>, ls: Seq<Seq<char>>| #[trigger]
        lines_of_edges(edges, deps_dir, resolved, ls) && contents == terminated(ls) {
        let (resolved, ls) = choose|resolved: Seq<Seq<char>>, ls: Seq<Seq<char>>| #[trigger]
            lines_of_edges(edges, deps_dir, resolved, ls) && contents == terminated(ls);
        assert forall|i: int| 0 <= i < edges.len() implies ls[i] == #[trigger] plan_lines(
            edges,
            resolved,
        )[i] by {
            an_edge_is_written_on_one_line(edges[i], resolved[i]);
        }
        assert(plan_lines(edges, resolved) =~= ls);
        assert(resolutions(edges, deps_dir, resolved));
    }
}

/// An absolute artifact resolves to itself, any other to what a host joins it
/// to the directory as.
pub proof fn only_absolute_artifacts_are_used_as_they_stand(
    artifact: Seq<char>,
    deps_dir: Seq<char>,
    r: Seq<char>,
)
    ensures
        resolution(artifact, true, deps_dir, r) <==> r == artifact,
        resolution(artifact, false, deps_dir, r) <==> join_fact(deps_dir, artifact, r),
{
}

/// A file is written unless it holds the very bytes of the contents.
pub proof fn a_file_is_written_unless_it_holds_the_bytes(
    bytes: Seq<u8>,
    contents: Seq<char>,
)
    ensures
        is_stale(None, contents),
        is_stale(Some(bytes), contents) <==> bytes != vstd::utf8::encode_utf8(contents),
{
}

} // verus!
