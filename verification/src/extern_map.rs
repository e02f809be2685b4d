//! The redirect plan as the rustc wrapper reads it.

use vstd::prelude::*;
use crate::link_paths::str_view;
use crate::text::{cut_first, line_list, lines, same, split_once, texts};

verus! {

/// A redirected dependency edge of a plan.
pub struct MapEdge {
    /// The consumer, as `name@version`.
    pub consumer: String,
    /// The name it knows the dependency by.
    pub alias: String,
    /// The artifact the edge redirects to.
    pub artifact: String,
}

/// A redirected edge as texts.
pub struct PlanEntry {
    pub consumer: Seq<char>,
    pub alias: Seq<char>,
    pub artifact: Seq<char>,
}

impl View for MapEdge {
    type V = PlanEntry;

    open spec fn view(&self) -> PlanEntry {
        PlanEntry { consumer: self.consumer@, alias: self.alias@, artifact: self.artifact@ }
    }
}

/// The views of edges.
pub open spec fn entry_views(s: Seq<MapEdge>) -> Seq<PlanEntry> {
    s.map_values(|e: MapEdge| e@)
}

/// The edge that a line `consumer:alias=artifact` gives.
pub open spec fn plan_entry(line: Seq<char>) -> Option<PlanEntry> {
    match split_once(line, '=') {
        Some((edge, artifact)) => match split_once(edge, ':') {
            Some((consumer, alias)) => Some(PlanEntry { consumer, alias, artifact }),
            None => None,
        },
        None => None,
    }
}

/// The edges that the lines of a plan give; other lines are passed over.
pub open spec fn plan_entries(contents: Seq<char>) -> Seq<PlanEntry> {
    lines(contents).filter_map(|line: Seq<char>| plan_entry(line))
}

/// The artifact that a dependency of a consumer redirects to: that of the
/// first edge listed for it.
pub open spec fn target_of(
    edges: Seq<PlanEntry>,
    consumer: Seq<char>,
    alias: Seq<char>,
) -> Option<Seq<char>>
    decreases edges.len(),
{
    if edges.len() == 0 {
        None
    } else if edges[0].consumer == consumer && edges[0].alias == alias {
        Some(edges[0].artifact)
    } else {
        target_of(edges.drop_first(), consumer, alias)
    }
}

/// The edges of a redirect plan.
pub struct ExternMap {
    pub edges: Vec<MapEdge>,
}

impl View for ExternMap {
    type V = Seq<PlanEntry>;

    open spec fn view(&self) -> Seq<PlanEntry> {
        entry_views(self.edges@)
    }
}

/// The edge that a line of a plan gives.
fn read_entry(line: &str) -> (r: Option<MapEdge>)
    ensures
        match plan_entry(line@) {
            Some(entry) => r matches Some(e) && e@ == entry,
            None => r is None,
        },
{
    match cut_first(line, '=') {
        Some((edge, artifact)) => match cut_first(&edge, ':') {
            Some((consumer, alias)) => Some(MapEdge { consumer, alias, artifact }),
            None => None,
        },
        None => None,
    }
}

/// Reads the per-project redirect plan, given the contents of its file. Each
/// `consumer@version:alias=artifact` line redirects one dependency edge; the
/// consumer carries its exact version so that two versions of one crate get
/// distinct redirects. An absent or unreadable plan has no edges, which
/// leaves only the facade to redirect.
pub fn load_extern_map(contents: Option<&str>) -> (r: ExternMap)
    ensures
        r@ == match str_view(contents) {
            Some(text) => plan_entries(text),
            None => Seq::<PlanEntry>::empty(),
        },
{
    let mut edges: Vec<MapEdge> = Vec::new();
    assert(entry_views(edges@) =~= Seq::<PlanEntry>::empty());
    let text = match contents {
        Some(text) => text,
        None => return ExternMap { edges },
    };
    let found = line_list(text);
    let ghost all = lines(text@);
    let ghost pick = |line: Seq<char>| plan_entry(line);
    proof {
        reveal(Seq::filter_map);
        assert(all.take(0).filter_map(pick) =~= Seq::<PlanEntry>::empty());
    }
    for i in 0..found.len()
        invariant
            all == lines(text@),
            texts(found@) == all,
            pick == (|line: Seq<char>| plan_entry(line)),
            entry_views(edges@) == all.take(i as int).filter_map(pick),
    {
        let ghost before = edges@;
        proof {
            assert(found@[i as int]@ == all[i as int]);
            all.lemma_filter_map_take_succ(pick, i as int);
        }
        match read_entry(&found[i]) {
            Some(e) => {
                edges.push(e);
                assert(entry_views(edges@) =~= entry_views(before) + seq![e@]);
            },
            None => {
                assert(entry_views(before) + seq![] =~= entry_views(before));
            },
        }
    }
    assert(all.take(all.len() as int) == all);
    ExternMap { edges }
}

impl ExternMap {
    /// The artifact that the dependency `alias` of `consumer` redirects to.
    pub fn edge_artifact(&self, consumer: &str, alias: &str) -> (r: Option<&str>)
        ensures
            str_view(r) == target_of(self@, consumer@, alias@),
    {
        let ghost all = self@;
        assert(all.skip(0) == all);
        for i in 0..self.edges.len()
            invariant
                all == self@,
                target_of(all, consumer@, alias@) == target_of(
                    all.skip(i as int),
                    consumer@,
                    alias@,
                ),
        {
            let e = &self.edges[i];
            proof {
                assert(all.skip(i as int)[0] == e@);
                assert(all.skip(i as int).drop_first() == all.skip(i + 1));
            }
            if same(&e.consumer, consumer) && same(&e.alias, alias) {
                return Some(e.artifact.as_str());
            }
        }
        None
    }
}

} // verus!
