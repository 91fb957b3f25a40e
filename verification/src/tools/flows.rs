//! Execution flows: the listing, the flows a change touches, and the call path between two
//! symbols.
use crate::chars::{
    cat2, cat3, cat5, contains, copy, join, join_spec, lowercase, lowercased, occurs,
    occurs_at, quote, quoted, replace, replaced, same_text, strip_prefix, views,
};
use crate::fx::{numbers_held, numbers_insert, numbers_new};
use crate::graph::{find_project, project_named, EdgeKind, Node, Project};
use crate::limits::{
    AFFECTED_FLOW_NODES_MAX, FLOWS_FETCH_MAX, FLOW_CANDIDATES_MAX, FLOW_ENDPOINTS_MAX, FLOW_HOPS_MAX,
    FLOW_NODES_MAX, FLOW_PATHS_MAX,
};
use crate::numbers::{decimal_spec, decimal_u32, decimal_usize};
use crate::order::{
    group_order, grouped_order, indices, law_grouping_brings_equals_together, lemma_grouped_places,
};
use crate::rank::{positions_valid, query_tokens, query_tokens_spec};
use rustc_hash::FxHashSet;
use vstd::prelude::*;

verus! {

// ---------------------------------------------------------------------------
// The shortest path

/// A kind of edge that carries execution, usage or inheritance: "X reaches Y".
pub open spec fn flow_edge(kind: EdgeKind) -> bool {
    match kind {
        EdgeKind::Calls
        | EdgeKind::RoutesTo
        | EdgeKind::Renders
        | EdgeKind::Resolves
        | EdgeKind::Handles
        | EdgeKind::Receives
        | EdgeKind::References
        | EdgeKind::Instantiates
        | EdgeKind::Overrides
        | EdgeKind::Decorates
        | EdgeKind::Extends
        | EdgeKind::ExtendsTemplate
        | EdgeKind::IncludesTemplate => true,
        _ => false,
    }
}

/// Whether an edge kind carries execution, usage or inheritance flow. Excludes structural
/// containment, imports, and the remaining type relations, which are not "X reaches Y".
pub fn is_flow_edge(kind: EdgeKind) -> (found: bool)
    ensures
        found == flow_edge(kind),
{
    match kind {
        EdgeKind::Calls
        | EdgeKind::RoutesTo
        | EdgeKind::Renders
        | EdgeKind::Resolves
        | EdgeKind::Handles
        | EdgeKind::Receives
        | EdgeKind::References
        | EdgeKind::Instantiates
        | EdgeKind::Overrides
        | EdgeKind::Decorates
        | EdgeKind::Extends
        | EdgeKind::ExtendsTemplate
        | EdgeKind::IncludesTemplate => true,
        _ => false,
    }
}

/// The edges out of each node.
pub open spec fn edge_lists(edges: Seq<Vec<(u32, EdgeKind)>>) -> Seq<Seq<(u32, EdgeKind)>> {
    edges.map_values(|list: Vec<(u32, EdgeKind)>| list@)
}

/// Every edge leads to a node.
pub open spec fn edges_valid(edges: Seq<Seq<(u32, EdgeKind)>>) -> bool {
    forall|i: int, k: int|
        0 <= i < edges.len() && 0 <= k < edges[i].len() ==> (#[trigger] edges[i][k]).0
            < edges.len()
}

/// One node reached by the search: over which edge, from which earlier visit, and how many
/// hops from the source.
pub struct Visit {
    pub node: int,
    pub from: int,
    pub kind: EdgeKind,
    pub depth: int,
}

/// The node was reached.
pub open spec fn is_seen(visits: Seq<Visit>, node: int) -> bool {
    exists|i: int| 0 <= i < visits.len() && (#[trigger] visits[i]).node == node
}

/// The visits after following these edges out of visit `at`, in order, each to a node not
/// reached before, until the target is reached.
pub open spec fn follow(
    visits: Seq<Visit>,
    at: int,
    edges: Seq<(u32, EdgeKind)>,
    target: int,
) -> Seq<Visit>
    decreases edges.len(),
{
    if edges.len() == 0 {
        visits
    } else {
        let reached = follow(visits, at, edges.drop_last(), target);
        let (node, kind) = edges.last();
        if reached.last().node == target || !flow_edge(kind) || is_seen(reached, node as int) {
            reached
        } else {
            reached.push(Visit { node: node as int, from: at, kind, depth: visits[at].depth + 1 })
        }
    }
}

/// The breadth-first search from visit `at` on: each visit in turn is followed, unless it is
/// the hop bound away from the source, until the target is the last node reached or more
/// nodes than the visit bound have been reached.
pub open spec fn search(
    edges: Seq<Seq<(u32, EdgeKind)>>,
    target: int,
    visits: Seq<Visit>,
    at: int,
) -> Option<Seq<Visit>>
    decreases FLOW_NODES_MAX + 1 - at,
{
    if at < 0 || at >= visits.len() || visits.len() > FLOW_NODES_MAX {
        None
    } else if visits[at].depth >= FLOW_HOPS_MAX {
        search(edges, target, visits, at + 1)
    } else {
        let reached = follow(visits, at, edges[visits[at].node], target);
        if reached.last().node == target {
            Some(reached)
        } else {
            search(edges, target, reached, at + 1)
        }
    }
}

/// The hops from the source to a visit: each node with the kind of the edge into it.
pub open spec fn hops_to(visits: Seq<Visit>, at: int) -> Seq<(int, EdgeKind)>
    decreases at,
{
    if at <= 0 || !(0 <= visits[at].from < at) {
        Seq::empty()
    } else {
        hops_to(visits, visits[at].from).push((visits[at].node, visits[at].kind))
    }
}

/// The visit the search starts with.
pub open spec fn start_visits(source: int) -> Seq<Visit> {
    seq![Visit { node: source, from: 0, kind: EdgeKind::Calls, depth: 0 }]
}

/// The path the breadth-first search finds from source to target.
pub open spec fn flow_path(
    edges: Seq<Seq<(u32, EdgeKind)>>,
    source: int,
    target: int,
) -> Option<Seq<(int, EdgeKind)>> {
    if source == target {
        None
    } else {
        match search(edges, target, start_visits(source), 0) {
            Some(visits) => Some(hops_to(visits, visits.len() - 1)),
            None => None,
        }
    }
}

struct Seen {
    node: usize,
    from: usize,
    kind: EdgeKind,
    depth: u32,
}

spec fn visit_views(seen: Seq<Seen>) -> Seq<Visit> {
    seen.map_values(
        |s: Seen| Visit { node: s.node as int, from: s.from as int, kind: s.kind, depth: s.depth as int },
    )
}

/// A path as a value.
pub open spec fn path_view(path: Seq<(usize, EdgeKind)>) -> Seq<(int, EdgeKind)> {
    path.map_values(|hop: (usize, EdgeKind)| (hop.0 as int, hop.1))
}

/// A found path as a value.
pub open spec fn found_view(path: Option<Vec<(usize, EdgeKind)>>) -> Option<Seq<(int, EdgeKind)>> {
    match path {
        Some(path) => Some(path_view(path@)),
        None => None,
    }
}

fn build_path(seen: &Vec<Seen>, at: usize) -> (path: Vec<(usize, EdgeKind)>)
    requires
        at < seen@.len(),
        forall|i: int| 0 < i < seen@.len() ==> (#[trigger] seen@[i]).from < i,
    ensures
        path_view(path@) == hops_to(visit_views(seen@), at as int),
    decreases at,
{
    if at == 0 {
        let path: Vec<(usize, EdgeKind)> = Vec::new();
        assert(path_view(path@) =~= Seq::empty());
        path
    } else {
        assert(seen@[at as int].from < at);
        let mut path = build_path(seen, seen[at].from);
        let ghost before = path@;
        path.push((seen[at].node, seen[at].kind));
        assert(path_view(path@) =~= path_view(before).push(
            (seen@[at as int].node as int, seen@[at as int].kind),
        ));
        path
    }
}

/// The shortest directed path from `source` to `target` over flow edges, as the hops after
/// the source. Breadth-first, so the first path found is shortest; bounded by
/// [`FLOW_HOPS_MAX`] hops and [`FLOW_NODES_MAX`] visits.
pub fn shortest_flow_path(
    out_edges: &[Vec<(u32, EdgeKind)>],
    source: usize,
    target: usize,
) -> (path: Option<Vec<(usize, EdgeKind)>>)
    requires
        source < out_edges@.len(),
        edges_valid(edge_lists(out_edges@)),
    ensures
        found_view(path) == flow_path(edge_lists(out_edges@), source as int, target as int),
{
    if source == target {
        return None;
    }
    let ghost edges = edge_lists(out_edges@);
    let mut visited: FxHashSet<usize> = numbers_new();
    numbers_insert(&mut visited, source);
    let mut seen: Vec<Seen> = Vec::new();
    seen.push(Seen { node: source, from: 0, kind: EdgeKind::Calls, depth: 0 });
    assert(visit_views(seen@) =~= start_visits(source as int));
    proof {
        assert forall|n: usize| numbers_held(visited).contains(n) <==> is_seen(
            visit_views(seen@),
            n as int,
        ) by {
            assert(visit_views(seen@)[0].node == source);
        }
    }
    let mut at: usize = 0;
    while at < seen.len()
        invariant
            edges == edge_lists(out_edges@),
            edges_valid(edges),
            source != target,
            at <= seen@.len(),
            seen@.len() > 0,
            seen@.last().node != target,
            forall|i: int| 0 <= i < seen@.len() ==> (#[trigger] seen@[i]).node < edges.len(),
            forall|i: int| 0 < i < seen@.len() ==> (#[trigger] seen@[i]).from < i,
            forall|i: int| 0 <= i < seen@.len() ==> (#[trigger] seen@[i]).depth <= FLOW_HOPS_MAX,
            forall|n: usize|
                numbers_held(visited).contains(n) <==> is_seen(visit_views(seen@), n as int),
            search(edges, target as int, start_visits(source as int), 0) == search(
                edges,
                target as int,
                visit_views(seen@),
                at as int,
            ),
        decreases FLOW_NODES_MAX + 1 - at,
    {
        if seen.len() > FLOW_NODES_MAX {
            return None;
        }
        let depth: u32 = seen[at].depth;
        assert(visit_views(seen@)[at as int].depth == depth);
        if depth >= FLOW_HOPS_MAX {
            at += 1;
            continue;
        }
        let node: usize = seen[at].node;
        assert(visit_views(seen@)[at as int].node == node);
        let ghost start = visit_views(seen@);
        let ghost list = edges[node as int];
        assert(list == out_edges@[node as int]@);
        assert(follow(start, at as int, list.take(0), target as int) == start);
        let count: usize = out_edges[node].len();
        for e in 0..count
            invariant
                edges == edge_lists(out_edges@),
                edges_valid(edges),
                node < edges.len(),
                list == edges[node as int],
                list == out_edges@[node as int]@,
                count == list.len(),
                source != target,
                at < start.len(),
                start.len() <= seen@.len(),
                depth < FLOW_HOPS_MAX,
                depth == start[at as int].depth,
                node == start[at as int].node,
                seen@.len() > 0,
                seen@.last().node != target,
                visit_views(seen@) == follow(start, at as int, list.take(e as int), target as int),
                search(edges, target as int, start_visits(source as int), 0) == search(
                    edges,
                    target as int,
                    start,
                    at as int,
                ),
                start.len() <= FLOW_NODES_MAX,
                forall|i: int| 0 <= i < seen@.len() ==> (#[trigger] seen@[i]).node < edges.len(),
                forall|i: int| 0 < i < seen@.len() ==> (#[trigger] seen@[i]).from < i,
                forall|i: int|
                    0 <= i < seen@.len() ==> (#[trigger] seen@[i]).depth <= FLOW_HOPS_MAX,
                forall|n: usize|
                    numbers_held(visited).contains(n) <==> is_seen(visit_views(seen@), n as int),
        {
            let ghost before = visit_views(seen@);
            assert(list.take(e + 1).drop_last() =~= list.take(e as int));
            assert(list.take(e + 1).last() == list[e as int]);
            let (next, kind) = out_edges[node][e];
            let neighbor: usize = next as usize;
            assert(edges[node as int][e as int].0 < edges.len());
            assert(before.last().node != target);
            let ghost held = numbers_held(visited);
            let fresh: bool = is_flow_edge(kind) && numbers_insert(&mut visited, neighbor);
            if fresh {
                let ghost visit = Visit {
                    node: neighbor as int,
                    from: at as int,
                    kind,
                    depth: depth + 1,
                };
                seen.push(Seen { node: neighbor, from: at, kind, depth: depth + 1 });
                assert(visit_views(seen@) =~= before.push(visit));
                proof {
                    assert forall|n: usize| numbers_held(visited).contains(n) <==> is_seen(
                        visit_views(seen@),
                        n as int,
                    ) by {
                        let after = visit_views(seen@);
                        if n == neighbor {
                            assert(after[before.len() as int].node == n);
                        } else if is_seen(before, n as int) {
                            let i = choose|i: int|
                                0 <= i < before.len() && (#[trigger] before[i]).node == n;
                            assert(after[i].node == n);
                        } else if is_seen(after, n as int) {
                            let i = choose|i: int|
                                0 <= i < after.len() && (#[trigger] after[i]).node == n;
                            assert(before[i].node == n);
                        }
                    }
                }
                if neighbor == target {
                    proof {
                        lemma_follow_keeps_target(start, at as int, list, target as int, e + 1);
                    }
                    let last: usize = seen.len() - 1;
                    return Some(build_path(&seen, last));
                }
            } else {
                assert(numbers_held(visited) =~= held);
            }
        }
        assert(list.take(count as int) =~= list);
        at += 1;
    }
    None
}

/// Once the target is the last node reached, following more edges changes nothing.
proof fn lemma_follow_keeps_target(
    visits: Seq<Visit>,
    at: int,
    edges: Seq<(u32, EdgeKind)>,
    target: int,
    count: int,
)
    requires
        0 <= count <= edges.len(),
        follow(visits, at, edges.take(count), target).last().node == target,
    ensures
        follow(visits, at, edges, target) == follow(visits, at, edges.take(count), target),
    decreases edges.len() - count,
{
    if count == edges.len() {
        assert(edges.take(count) =~= edges);
    } else {
        assert(edges.take(count + 1).drop_last() =~= edges.take(count));
        lemma_follow_keeps_target(visits, at, edges, target, count + 1);
    }
}

// ---------------------------------------------------------------------------
// What the search promises

/// There is a flow edge of this kind from one node to the other.
pub open spec fn hop_exists(
    edges: Seq<Seq<(u32, EdgeKind)>>,
    from: int,
    to: int,
    kind: EdgeKind,
) -> bool {
    flow_edge(kind) && 0 <= from < edges.len() && exists|k: int|
        0 <= k < edges[from].len() && (#[trigger] edges[from][k]).0 == to && edges[from][k].1
            == kind
}

/// The node a path leads to.
pub open spec fn path_end(source: int, path: Seq<(int, EdgeKind)>) -> int {
    if path.len() == 0 {
        source
    } else {
        path.last().0
    }
}

/// Each hop of the path is a flow edge out of the node before it.
pub open spec fn flow_walk(
    edges: Seq<Seq<(u32, EdgeKind)>>,
    source: int,
    path: Seq<(int, EdgeKind)>,
) -> bool
    decreases path.len(),
{
    path.len() == 0 || (flow_walk(edges, source, path.drop_last()) && hop_exists(
        edges,
        path_end(source, path.drop_last()),
        path.last().0,
        path.last().1,
    ))
}

spec fn visit_ok(edges: Seq<Seq<(u32, EdgeKind)>>, visits: Seq<Visit>, i: int) -> bool {
    &&& 0 <= visits[i].from < i
    &&& visits[i].depth == visits[visits[i].from].depth + 1
    &&& visits[i].depth <= FLOW_HOPS_MAX
    &&& hop_exists(edges, visits[visits[i].from].node, visits[i].node, visits[i].kind)
}

spec fn visits_ok(edges: Seq<Seq<(u32, EdgeKind)>>, source: int, visits: Seq<Visit>) -> bool {
    &&& visits.len() > 0
    &&& visits[0].node == source
    &&& visits[0].depth == 0
    &&& forall|i: int| 0 < i < visits.len() ==> #[trigger] visit_ok(edges, visits, i)
    &&& forall|i: int| 0 <= i < visits.len() ==> 0 <= (#[trigger] visits[i]).node < edges.len()
    &&& forall|i: int, j: int|
        0 <= i < j < visits.len() ==> (#[trigger] visits[i]).depth <= (#[trigger] visits[j]).depth
    &&& forall|i: int, j: int|
        0 <= i < j < visits.len() ==> (#[trigger] visits[i]).node != (#[trigger] visits[j]).node
}

spec fn reached_by(visits: Seq<Visit>, node: int, depth: int) -> bool {
    exists|j: int|
        0 <= j < visits.len() && (#[trigger] visits[j]).node == node && visits[j].depth <= depth
}

spec fn closed_at(visits: Seq<Visit>, i: int, list: Seq<(u32, EdgeKind)>) -> bool {
    forall|k: int|
        0 <= k < list.len() && flow_edge((#[trigger] list[k]).1) ==> reached_by(
            visits,
            list[k].0 as int,
            visits[i].depth + 1,
        )
}

spec fn closed_upto(edges: Seq<Seq<(u32, EdgeKind)>>, visits: Seq<Visit>, at: int) -> bool {
    forall|i: int|
        0 <= i < at && i < visits.len() && visits[i].depth < FLOW_HOPS_MAX ==> #[trigger] closed_at(
            visits,
            i,
            edges[visits[i].node],
        )
}

proof fn lemma_closed_at_grows(
    visits: Seq<Visit>,
    more: Seq<Visit>,
    i: int,
    list: Seq<(u32, EdgeKind)>,
)
    requires
        0 <= i < visits.len() <= more.len(),
        visits == more.take(visits.len() as int),
        closed_at(visits, i, list),
    ensures
        closed_at(more, i, list),
{
    assert(more[i] == visits[i]);
    assert forall|k: int| 0 <= k < list.len() && flow_edge(
        (#[trigger] list[k]).1,
    ) implies reached_by(more, list[k].0 as int, more[i].depth + 1) by {
        let j = choose|j: int|
            0 <= j < visits.len() && (#[trigger] visits[j]).node == list[k].0 && visits[j].depth
                <= visits[i].depth + 1;
        assert(more[j] == visits[j]);
    }
}

proof fn lemma_follow(
    edges: Seq<Seq<(u32, EdgeKind)>>,
    source: int,
    visits: Seq<Visit>,
    at: int,
    count: int,
    target: int,
)
    requires
        edges_valid(edges),
        visits_ok(edges, source, visits),
        0 <= at < visits.len(),
        visits[at].depth < FLOW_HOPS_MAX,
        forall|j: int|
            0 <= j < visits.len() ==> (#[trigger] visits[j]).depth <= visits[at].depth + 1,
        !is_seen(visits, target),
        0 <= count <= edges[visits[at].node].len(),
    ensures
        ({
            let list = edges[visits[at].node].take(count);
            let reached = follow(visits, at, list, target);
            &&& visits_ok(edges, source, reached)
            &&& reached.len() >= visits.len()
            &&& visits == reached.take(visits.len() as int)
            &&& forall|j: int|
                0 <= j < reached.len() ==> (#[trigger] reached[j]).depth <= visits[at].depth + 1
            &&& reached.last().node != target ==> !is_seen(reached, target) && closed_at(
                reached,
                at,
                list,
            )
            &&& reached.last().node == target ==> reached.last().depth == visits[at].depth + 1
        }),
    decreases count,
{
    let full = edges[visits[at].node];
    let list = full.take(count);
    let reached = follow(visits, at, list, target);
    if count == 0 {
        assert(list =~= Seq::empty());
        assert(visits =~= reached.take(visits.len() as int));
    } else {
        lemma_follow(edges, source, visits, at, count - 1, target);
        let shorter = full.take(count - 1);
        assert(list.drop_last() =~= shorter);
        let before = follow(visits, at, shorter, target);
        let (node, kind) = list.last();
        assert(list.last() == full[count - 1]);
        assert(before[at] == visits[at]);
        if before.last().node == target {
            assert(reached == before);
        } else if !flow_edge(kind) {
            assert(reached == before);
            assert forall|k: int| 0 <= k < list.len() && flow_edge(
                (#[trigger] list[k]).1,
            ) implies reached_by(reached, list[k].0 as int, reached[at].depth + 1) by {
                assert(k < count - 1);
                assert(shorter[k] == list[k]);
            }
        } else if is_seen(before, node as int) {
            assert(reached == before);
            assert forall|k: int| 0 <= k < list.len() && flow_edge(
                (#[trigger] list[k]).1,
            ) implies reached_by(reached, list[k].0 as int, reached[at].depth + 1) by {
                if k < count - 1 {
                    assert(shorter[k] == list[k]);
                } else {
                    let j = choose|j: int|
                        0 <= j < before.len() && (#[trigger] before[j]).node == node;
                    assert(before[j].depth <= visits[at].depth + 1);
                }
            }
        } else {
            let visit = Visit { node: node as int, from: at, kind, depth: visits[at].depth + 1 };
            assert(reached == before.push(visit));
            assert(visits =~= reached.take(visits.len() as int));
            assert(full[count - 1].0 < edges.len());
            assert(hop_exists(edges, visits[at].node, node as int, kind));
            assert forall|i: int| 0 < i < reached.len() implies #[trigger] visit_ok(
                edges,
                reached,
                i,
            ) by {
                if i < before.len() {
                    assert(visit_ok(edges, before, i));
                }
            }
            assert forall|i: int, j: int| 0 <= i < j < reached.len() implies (
            #[trigger] reached[i]).node != (#[trigger] reached[j]).node by {
                if j == before.len() {
                    assert(before[i].node != node);
                }
            }
            if node != target {
                if is_seen(reached, target) {
                    let j = choose|j: int|
                        0 <= j < reached.len() && (#[trigger] reached[j]).node == target;
                    assert(before[j].node == target);
                }
                assert forall|k: int| 0 <= k < list.len() && flow_edge(
                    (#[trigger] list[k]).1,
                ) implies reached_by(reached, list[k].0 as int, reached[at].depth + 1) by {
                    if k < count - 1 {
                        assert(shorter[k] == list[k]);
                        let j = choose|j: int|
                            0 <= j < before.len() && (#[trigger] before[j]).node == list[k].0
                                && before[j].depth <= before[at].depth + 1;
                        assert(reached[j] == before[j]);
                    } else {
                        assert(reached[before.len() as int].node == node);
                    }
                }
            }
        }
    }
}

/// What holds of a state of the search.
spec fn search_state(
    edges: Seq<Seq<(u32, EdgeKind)>>,
    source: int,
    target: int,
    visits: Seq<Visit>,
    at: int,
) -> bool {
    &&& edges_valid(edges)
    &&& visits_ok(edges, source, visits)
    &&& 0 <= at <= visits.len()
    &&& !is_seen(visits, target)
    &&& closed_upto(edges, visits, at)
    &&& at < visits.len() ==> forall|j: int|
        0 <= j < visits.len() ==> (#[trigger] visits[j]).depth <= visits[at].depth + 1
}

proof fn lemma_step(
    edges: Seq<Seq<(u32, EdgeKind)>>,
    source: int,
    target: int,
    visits: Seq<Visit>,
    at: int,
)
    requires
        search_state(edges, source, target, visits, at),
        at < visits.len(),
    ensures
        visits[at].depth >= FLOW_HOPS_MAX ==> search_state(edges, source, target, visits, at + 1),
        visits[at].depth < FLOW_HOPS_MAX ==> ({
            let reached = follow(visits, at, edges[visits[at].node], target);
            reached.last().node != target ==> search_state(edges, source, target, reached, at + 1)
        }),
{
    if visits[at].depth < FLOW_HOPS_MAX {
        let list = edges[visits[at].node];
        assert(list.take(list.len() as int) =~= list);
        lemma_follow(edges, source, visits, at, list.len() as int, target);
        let reached = follow(visits, at, list, target);
        if reached.last().node != target {
            assert forall|i: int| 0 <= i < at + 1 && i < reached.len() && reached[i].depth
                < FLOW_HOPS_MAX implies #[trigger] closed_at(
                reached,
                i,
                edges[reached[i].node],
            ) by {
                if i < at {
                    assert(reached[i] == visits[i]);
                    assert(closed_at(visits, i, edges[visits[i].node]));
                    lemma_closed_at_grows(visits, reached, i, edges[visits[i].node]);
                } else {
                    assert(reached[i] == visits[i]);
                }
            }
            if at + 1 < reached.len() {
                assert(reached[at] == visits[at]);
                assert(reached[at].depth <= reached[at + 1].depth);
            }
        }
    } else {
        if at + 1 < visits.len() {
            assert(visits[at].depth <= visits[at + 1].depth);
        }
        assert forall|i: int| 0 <= i < at + 1 && i < visits.len() && visits[i].depth
            < FLOW_HOPS_MAX implies #[trigger] closed_at(visits, i, edges[visits[i].node]) by {
            assert(i < at);
        }
    }
}

proof fn lemma_start(edges: Seq<Seq<(u32, EdgeKind)>>, source: int, target: int)
    requires
        edges_valid(edges),
        0 <= source < edges.len(),
        source != target,
    ensures
        search_state(edges, source, target, start_visits(source), 0),
{
}

proof fn lemma_hops_are_a_walk(
    edges: Seq<Seq<(u32, EdgeKind)>>,
    source: int,
    visits: Seq<Visit>,
    at: int,
)
    requires
        visits_ok(edges, source, visits),
        0 <= at < visits.len(),
    ensures
        flow_walk(edges, source, hops_to(visits, at)),
        hops_to(visits, at).len() == visits[at].depth,
        path_end(source, hops_to(visits, at)) == visits[at].node,
    decreases at,
{
    if at > 0 {
        assert(visit_ok(edges, visits, at));
        let from = visits[at].from;
        lemma_hops_are_a_walk(edges, source, visits, from);
        let path = hops_to(visits, at);
        assert(path.drop_last() =~= hops_to(visits, from));
    }
}

/// A walk of fewer hops than the search has covered ends at a node already reached.
proof fn lemma_walk_is_reached(
    edges: Seq<Seq<(u32, EdgeKind)>>,
    source: int,
    visits: Seq<Visit>,
    at: int,
    walk: Seq<(int, EdgeKind)>,
)
    requires
        visits_ok(edges, source, visits),
        0 <= at <= visits.len(),
        closed_upto(edges, visits, at),
        flow_walk(edges, source, walk),
        walk.len() <= FLOW_HOPS_MAX,
        forall|i: int|
            0 <= i < visits.len() && (#[trigger] visits[i]).depth < walk.len() ==> i < at,
    ensures
        reached_by(visits, path_end(source, walk), walk.len() as int),
    decreases walk.len(),
{
    if walk.len() == 0 {
        assert(visits[0].node == source);
    } else {
        let shorter = walk.drop_last();
        lemma_walk_is_reached(edges, source, visits, at, shorter);
        let before = path_end(source, shorter);
        let i = choose|i: int|
            0 <= i < visits.len() && (#[trigger] visits[i]).node == before && visits[i].depth
                <= shorter.len();
        assert(i < at);
        let list = edges[before];
        assert(closed_at(visits, i, list));
        let k = choose|k: int|
            0 <= k < list.len() && (#[trigger] list[k]).0 == walk.last().0 && list[k].1
                == walk.last().1;
        assert(reached_by(visits, list[k].0 as int, visits[i].depth + 1));
    }
}

proof fn lemma_search(
    edges: Seq<Seq<(u32, EdgeKind)>>,
    source: int,
    target: int,
    visits: Seq<Visit>,
    at: int,
    walk: Seq<(int, EdgeKind)>,
)
    requires
        search_state(edges, source, target, visits, at),
        flow_walk(edges, source, walk),
        path_end(source, walk) == target,
    ensures
        match search(edges, target, visits, at) {
            Some(found) => visits_ok(edges, source, found) && found.last().node == target
                && found.last().depth <= walk.len() && found.len() > 1,
            None => edges.len() <= FLOW_NODES_MAX ==> walk.len() > FLOW_HOPS_MAX,
        },
    decreases FLOW_NODES_MAX + 1 - at,
{
    if at >= visits.len() {
        if walk.len() <= FLOW_HOPS_MAX {
            lemma_walk_is_reached(edges, source, visits, at, walk);
        }
    } else if visits.len() > FLOW_NODES_MAX {
        lemma_distinct_fit(edges, source, visits);
    } else {
        lemma_step(edges, source, target, visits, at);
        if visits[at].depth >= FLOW_HOPS_MAX {
            lemma_search(edges, source, target, visits, at + 1, walk);
        } else {
            let list = edges[visits[at].node];
            assert(list.take(list.len() as int) =~= list);
            lemma_follow(edges, source, visits, at, list.len() as int, target);
            let reached = follow(visits, at, list, target);
            if reached.last().node == target {
                if walk.len() <= visits[at].depth {
                    assert forall|i: int| 0 <= i < visits.len() && (#[trigger] visits[i]).depth
                        < walk.len() implies i < at by {
                        if i > at {
                            assert(visits[at].depth <= visits[i].depth);
                        }
                    }
                    lemma_walk_is_reached(edges, source, visits, at, walk);
                }
            } else {
                lemma_search(edges, source, target, reached, at + 1, walk);
            }
        }
    }
}

/// There are no more visits than nodes.
proof fn lemma_distinct_fit(
    edges: Seq<Seq<(u32, EdgeKind)>>,
    source: int,
    visits: Seq<Visit>,
)
    requires
        visits_ok(edges, source, visits),
    ensures
        visits.len() <= edges.len(),
{
    let nodes = visits.map_values(|visit: Visit| visit.node);
    assert(nodes.no_duplicates()) by {
        assert forall|i: int, j: int| 0 <= i < nodes.len() && 0 <= j < nodes.len() && i
            != j implies nodes[i] != nodes[j] by {
            if i < j {
                assert(visits[i].node != visits[j].node);
            } else {
                assert(visits[j].node != visits[i].node);
            }
        }
    }
    nodes.unique_seq_to_set();
    let range = vstd::set_lib::set_int_range(0, edges.len() as int);
    vstd::set_lib::lemma_int_range(0, edges.len() as int);
    assert(nodes.to_set().subset_of(range)) by {
        assert forall|node: int| nodes.to_set().contains(node) implies range.contains(node) by {
            let i = choose|i: int| 0 <= i < nodes.len() && nodes[i] == node;
            assert(visits[i].node == node);
        }
    }
    vstd::set_lib::lemma_len_subset(nodes.to_set(), range);
}

proof fn lemma_search_is_sound(
    edges: Seq<Seq<(u32, EdgeKind)>>,
    source: int,
    target: int,
    visits: Seq<Visit>,
    at: int,
)
    requires
        search_state(edges, source, target, visits, at),
    ensures
        match search(edges, target, visits, at) {
            Some(found) => visits_ok(edges, source, found) && found.last().node == target
                && found.len() > 1,
            None => true,
        },
    decreases FLOW_NODES_MAX + 1 - at,
{
    if at < visits.len() && visits.len() <= FLOW_NODES_MAX {
        lemma_step(edges, source, target, visits, at);
        if visits[at].depth >= FLOW_HOPS_MAX {
            lemma_search_is_sound(edges, source, target, visits, at + 1);
        } else {
            let list = edges[visits[at].node];
            assert(list.take(list.len() as int) =~= list);
            lemma_follow(edges, source, visits, at, list.len() as int, target);
            let reached = follow(visits, at, list, target);
            if reached.last().node != target {
                lemma_search_is_sound(edges, source, target, reached, at + 1);
            } else if reached.len() == visits.len() {
                assert(reached =~= visits);
                assert(is_seen(visits, target));
            }
        }
    }
}

/// A path that is found leads from the source to the target over flow edges, within the hop
/// bound.
pub proof fn law_found_path_is_a_flow_path(
    edges: Seq<Seq<(u32, EdgeKind)>>,
    source: int,
    target: int,
)
    requires
        edges_valid(edges),
        0 <= source < edges.len(),
    ensures
        match flow_path(edges, source, target) {
            Some(path) => flow_walk(edges, source, path) && path_end(source, path) == target && 1
                <= path.len() <= FLOW_HOPS_MAX,
            None => true,
        },
{
    if source != target {
        lemma_start(edges, source, target);
        lemma_search_is_sound(edges, source, target, start_visits(source), 0);
        if let Some(visits) = search(edges, target, start_visits(source), 0) {
            lemma_hops_are_a_walk(edges, source, visits, visits.len() - 1);
            assert(visit_ok(edges, visits, visits.len() - 1));
            assert(visits[visits.len() - 1].depth >= 1) by {
                let from = visits[visits.len() - 1].from;
                assert(visits[0].depth <= visits[from].depth);
            }
        }
    }
}

/// No flow path from the source to the target is shorter than the one that is found.
pub proof fn law_found_path_is_shortest(
    edges: Seq<Seq<(u32, EdgeKind)>>,
    source: int,
    target: int,
    walk: Seq<(int, EdgeKind)>,
)
    requires
        edges_valid(edges),
        0 <= source < edges.len(),
        flow_walk(edges, source, walk),
        path_end(source, walk) == target,
    ensures
        match flow_path(edges, source, target) {
            Some(path) => path.len() <= walk.len(),
            None => true,
        },
{
    if source != target {
        lemma_start(edges, source, target);
        lemma_search(edges, source, target, start_visits(source), 0, walk);
        if let Some(visits) = search(edges, target, start_visits(source), 0) {
            lemma_hops_are_a_walk(edges, source, visits, visits.len() - 1);
        }
    }
}

/// In a graph of no more nodes than the visit bound, two distinct nodes that a flow path
/// within the hop bound connects are found to be connected.
pub proof fn law_connected_pair_is_found(
    edges: Seq<Seq<(u32, EdgeKind)>>,
    source: int,
    target: int,
    walk: Seq<(int, EdgeKind)>,
)
    requires
        edges_valid(edges),
        0 <= source < edges.len(),
        source != target,
        edges.len() <= FLOW_NODES_MAX,
        flow_walk(edges, source, walk),
        path_end(source, walk) == target,
        walk.len() <= FLOW_HOPS_MAX,
    ensures
        flow_path(edges, source, target) is Some,
{
    lemma_start(edges, source, target);
    lemma_search(edges, source, target, start_visits(source), 0, walk);
}

// ---------------------------------------------------------------------------
// Paths among named symbols

/// `inner` is `outer` plus one more qualified segment, joined by a dot.
pub open spec fn nests_within_spec(outer: Seq<char>, inner: Seq<char>) -> bool {
    outer.len() > 0 && inner.len() > outer.len() && outer.is_prefix_of(inner)
        && inner[outer.len() as int] == '.' && !occurs(inner.skip(outer.len() as int + 1), "."@)
}

fn nests_within(outer: &str, inner: &str) -> (found: bool)
    ensures
        found == nests_within_spec(outer@, inner@),
{
    if outer.is_empty() {
        return false;
    }
    proof {
        reveal_strlit(".");
    }
    match strip_prefix(inner, outer) {
        Some(rest) => match strip_prefix(rest.as_str(), ".") {
            Some(segment) => {
                proof {
                    assert(rest@[0] == "."@[0]);
                    assert(rest@.skip(1) =~= inner@.skip(outer@.len() as int + 1));
                }
                !contains(segment.as_str(), ".")
            },
            None => {
                assert(rest@.len() > 0 && rest@[0] == '.' ==> "."@.is_prefix_of(rest@)) by {
                    if rest@.len() > 0 && rest@[0] == '.' {
                        assert("."@ =~= rest@.subrange(0, 1));
                    }
                }
                false
            },
        },
        None => false,
    }
}

/// One of the two symbols declares the other: their qualified names nest.
pub open spec fn owner_member(left: Node, right: Node) -> bool {
    nests_within_spec(left.qualified_name@, right.qualified_name@) || nests_within_spec(
        right.qualified_name@,
        left.qualified_name@,
    )
}

/// Whether one of two named symbols declares the other: a class and its method, a module and
/// the symbol inside it. Containment carries no call path to report on.
pub fn is_owner_member(left: &Node, right: &Node) -> (found: bool)
    ensures
        found == owner_member(*left, *right),
{
    nests_within(left.qualified_name.as_str(), right.qualified_name.as_str()) || nests_within(
        right.qualified_name.as_str(),
        left.qualified_name.as_str(),
    )
}

/// The outcome of tracing one pair of named endpoints.
pub enum PairView {
    Connected(int, Seq<(int, EdgeKind)>),
    Unconnected,
    Containment,
}

/// The outcome of tracing one pair of named endpoints.
pub enum PairOutcome {
    /// A path, as the source and the hops a renderer needs.
    Connected(usize, Vec<(usize, EdgeKind)>),
    /// Some candidate pairing was two distinct symbols, and none of them connected.
    Unconnected,
    /// Every candidate pairing was a class and its own member.
    Containment,
}

impl View for PairOutcome {
    type V = PairView;

    open spec fn view(&self) -> PairView {
        match self {
            PairOutcome::Connected(source, path) => PairView::Connected(
                *source as int,
                path_view(path@),
            ),
            PairOutcome::Unconnected => PairView::Unconnected,
            PairOutcome::Containment => PairView::Containment,
        }
    }
}

/// The pairings from candidate `i` of the left name and `j` of the right on, in order: the
/// first that connects, in the direction asked or else backwards. A symbol and its own member
/// are no pairing; `distinct` says whether there was another before.
pub open spec fn connect_from(
    nodes: Seq<Node>,
    edges: Seq<Seq<(u32, EdgeKind)>>,
    left: Seq<usize>,
    right: Seq<usize>,
    i: int,
    j: int,
    distinct: bool,
) -> PairView
    decreases left.len() - i, right.len() - j,
{
    if i >= left.len() {
        if distinct {
            PairView::Unconnected
        } else {
            PairView::Containment
        }
    } else if j >= right.len() {
        connect_from(nodes, edges, left, right, i + 1, 0, distinct)
    } else if owner_member(nodes[left[i] as int], nodes[right[j] as int]) {
        connect_from(nodes, edges, left, right, i, j + 1, distinct)
    } else {
        match flow_path(edges, left[i] as int, right[j] as int) {
            Some(path) => PairView::Connected(left[i] as int, path),
            None => match flow_path(edges, right[j] as int, left[i] as int) {
                Some(path) => PairView::Connected(right[j] as int, path),
                None => connect_from(nodes, edges, left, right, i, j + 1, true),
            },
        }
    }
}

/// The first connected pairing between two groups of same-named definitions. Every candidate
/// of the left name is tried against every candidate of the right, in both directions.
pub fn connect_groups(
    nodes: &[Node],
    out_edges: &[Vec<(u32, EdgeKind)>],
    left: &[usize],
    right: &[usize],
) -> (outcome: PairOutcome)
    requires
        nodes@.len() == out_edges@.len(),
        edges_valid(edge_lists(out_edges@)),
        positions_valid(nodes@, left@),
        positions_valid(nodes@, right@),
    ensures
        outcome@ == connect_from(
            nodes@,
            edge_lists(out_edges@),
            left@,
            right@,
            0,
            0,
            false,
        ),
{
    let ghost edges = edge_lists(out_edges@);
    let mut distinct: bool = false;
    let mut i: usize = 0;
    while i < left.len()
        invariant
            edges == edge_lists(out_edges@),
            edges_valid(edges),
            nodes@.len() == out_edges@.len(),
            positions_valid(nodes@, left@),
            positions_valid(nodes@, right@),
            i <= left@.len(),
            connect_from(nodes@, edges, left@, right@, 0, 0, false) == connect_from(
                nodes@,
                edges,
                left@,
                right@,
                i as int,
                0,
                distinct,
            ),
        decreases left@.len() - i,
    {
        let source: usize = left[i];
        assert(left@[i as int] < nodes@.len());
        let mut j: usize = 0;
        while j < right.len()
            invariant
                edges == edge_lists(out_edges@),
                edges_valid(edges),
                nodes@.len() == out_edges@.len(),
                positions_valid(nodes@, left@),
                positions_valid(nodes@, right@),
                i < left@.len(),
                source == left@[i as int],
                source < nodes@.len(),
                j <= right@.len(),
                connect_from(nodes@, edges, left@, right@, 0, 0, false) == connect_from(
                    nodes@,
                    edges,
                    left@,
                    right@,
                    i as int,
                    j as int,
                    distinct,
                ),
            decreases right@.len() - j,
        {
            let target: usize = right[j];
            assert(right@[j as int] < nodes@.len());
            if !is_owner_member(&nodes[source], &nodes[target]) {
                match shortest_flow_path(out_edges, source, target) {
                    Some(path) => {
                        return PairOutcome::Connected(source, path);
                    },
                    None => {},
                }
                match shortest_flow_path(out_edges, target, source) {
                    Some(path) => {
                        return PairOutcome::Connected(target, path);
                    },
                    None => {},
                }
                distinct = true;
            }
            j += 1;
        }
        i += 1;
    }
    if distinct {
        PairOutcome::Unconnected
    } else {
        PairOutcome::Containment
    }
}

/// One hop of a path, on a line of its own.
pub open spec fn hop_line(nodes: Seq<Node>, hop: (int, EdgeKind)) -> Seq<char> {
    "    →"@ + hop.1.label() + "→ "@ + place_text(nodes[hop.0]) + "\n"@
}

/// A symbol's name and where it stands.
pub open spec fn place_text(node: Node) -> Seq<char> {
    node.name@ + " ("@ + node.file_path@ + ":"@ + decimal_spec(node.span.start_line as nat) + ")"@
}

/// The hops of a path, one line each.
pub open spec fn hop_lines(nodes: Seq<Node>, path: Seq<(int, EdgeKind)>) -> Seq<char>
    decreases path.len(),
{
    if path.len() == 0 {
        ""@
    } else {
        hop_lines(nodes, path.drop_last()) + hop_line(nodes, path.last())
    }
}

/// One traced path: the source symbol, then one indented line per hop.
pub open spec fn flow_path_text(
    nodes: Seq<Node>,
    source: int,
    path: Seq<(int, EdgeKind)>,
) -> Seq<char> {
    "  "@ + place_text(nodes[source]) + "\n"@ + hop_lines(nodes, path) + "\n"@
}

/// The hops all lead to nodes.
pub open spec fn path_valid(nodes: Seq<Node>, path: Seq<(int, EdgeKind)>) -> bool {
    forall|i: int| 0 <= i < path.len() ==> 0 <= (#[trigger] path[i]).0 < nodes.len()
}

fn place(node: &Node) -> (text: String)
    ensures
        text@ == place_text(*node),
{
    let line = decimal_u32(node.span.start_line);
    let mut text = cat5(
        node.name.as_str(),
        " (",
        node.file_path.as_str(),
        ":",
        line.as_str(),
    );
    text.append(")");
    text
}

/// The render of one traced path: the source symbol, then one indented line per hop, each
/// with its edge kind and `name (file:line)`.
pub fn render_flow_path(nodes: &[Node], source: usize, path: &[(usize, EdgeKind)]) -> (text: String)
    requires
        source < nodes@.len(),
        path_valid(nodes@, path_view(path@)),
    ensures
        text@ == flow_path_text(nodes@, source as int, path_view(path@)),
{
    let ghost hops = path_view(path@);
    let mut lines = copy("");
    assert(hops.take(0) =~= Seq::empty());
    for i in 0..path.len()
        invariant
            hops == path_view(path@),
            path_valid(nodes@, hops),
            lines@ == hop_lines(nodes@, hops.take(i as int)),
    {
        assert(hops.take(i + 1).drop_last() =~= hops.take(i as int));
        assert(0 <= hops[i as int].0 < nodes@.len());
        let (node, kind) = path[i];
        let at = place(&nodes[node]);
        let line = cat5("    →", kind.as_str(), "→ ", at.as_str(), "\n");
        lines.append(line.as_str());
    }
    assert(hops.take(path@.len() as int) =~= hops);
    let head = place(&nodes[source]);
    cat5("  ", head.as_str(), "\n", lines.as_str(), "\n")
}

/// The nodes a found path leads over are nodes of the graph.
pub proof fn lemma_path_valid(edges: Seq<Seq<(u32, EdgeKind)>>, nodes: Seq<Node>, source: int, target: int)
    requires
        edges_valid(edges),
        edges.len() == nodes.len(),
        0 <= source < edges.len(),
    ensures
        match flow_path(edges, source, target) {
            Some(path) => path_valid(nodes, path),
            None => true,
        },
{
    law_found_path_is_a_flow_path(edges, source, target);
    if let Some(path) = flow_path(edges, source, target) {
        lemma_walk_valid(edges, nodes, source, path);
    }
}

proof fn lemma_walk_valid(
    edges: Seq<Seq<(u32, EdgeKind)>>,
    nodes: Seq<Node>,
    source: int,
    path: Seq<(int, EdgeKind)>,
)
    requires
        edges_valid(edges),
        edges.len() == nodes.len(),
        flow_walk(edges, source, path),
    ensures
        path_valid(nodes, path),
    decreases path.len(),
{
    if path.len() > 0 {
        lemma_walk_valid(edges, nodes, source, path.drop_last());
        let from = path_end(source, path.drop_last());
        let list = edges[from];
        let k = choose|k: int|
            0 <= k < list.len() && (#[trigger] list[k]).0 == path.last().0 && list[k].1
                == path.last().1;
        assert(edges[from][k].0 < edges.len());
        assert forall|i: int| 0 <= i < path.len() implies 0 <= (#[trigger] path[i]).0
            < nodes.len() by {
            if i < path.len() - 1 {
                assert(path[i] == path.drop_last()[i]);
            }
        }
    }
}

proof fn lemma_connected_valid(
    nodes: Seq<Node>,
    edges: Seq<Seq<(u32, EdgeKind)>>,
    left: Seq<usize>,
    right: Seq<usize>,
    i: int,
    j: int,
    distinct: bool,
)
    requires
        edges_valid(edges),
        edges.len() == nodes.len(),
        positions_valid(nodes, left),
        positions_valid(nodes, right),
        0 <= i,
        0 <= j,
    ensures
        match connect_from(nodes, edges, left, right, i, j, distinct) {
            PairView::Connected(source, path) => 0 <= source < nodes.len() && path_valid(
                nodes,
                path,
            ),
            _ => true,
        },
    decreases left.len() - i, right.len() - j,
{
    if i < left.len() {
        assert(left[i] < nodes.len());
        if j >= right.len() {
            lemma_connected_valid(nodes, edges, left, right, i + 1, 0, distinct);
        } else {
            assert(right[j] < nodes.len());
            lemma_path_valid(edges, nodes, left[i] as int, right[j] as int);
            lemma_path_valid(edges, nodes, right[j] as int, left[i] as int);
            lemma_connected_valid(nodes, edges, left, right, i, j + 1, distinct);
            lemma_connected_valid(nodes, edges, left, right, i, j + 1, true);
        }
    }
}

/// A name the query gives, with the definitions of it to try.
pub struct Endpoint {
    pub name: String,
    pub candidates: Vec<usize>,
}

/// The named endpoints as values.
pub open spec fn endpoint_views(endpoints: Seq<Endpoint>) -> Seq<(Seq<char>, Seq<usize>)> {
    endpoints.map_values(|endpoint: Endpoint| (endpoint.name@, endpoint.candidates@))
}

/// The position, from `from` on, of the endpoint with this name.
pub open spec fn endpoint_at(
    groups: Seq<(Seq<char>, Seq<usize>)>,
    name: Seq<char>,
    from: int,
) -> Option<int>
    decreases groups.len() - from,
{
    if from < 0 || from >= groups.len() {
        None
    } else if groups[from].0 == name {
        Some(from)
    } else {
        endpoint_at(groups, name, from + 1)
    }
}

/// The seeds whose name is a token of the query, grouped by name in order of appearance:
/// at most so many names, and so many definitions of each.
pub open spec fn endpoints_upto(
    nodes: Seq<Node>,
    tokens: Seq<Seq<char>>,
    seeds: Seq<usize>,
    count: int,
) -> Seq<(Seq<char>, Seq<usize>)>
    decreases count,
{
    if count <= 0 {
        Seq::empty()
    } else {
        let groups = endpoints_upto(nodes, tokens, seeds, count - 1);
        let seed = seeds[count - 1];
        let name = lowercased(nodes[seed as int].name@);
        if !tokens.contains(name) {
            groups
        } else {
            match endpoint_at(groups, name, 0) {
                Some(at) => if groups[at].1.len() < FLOW_CANDIDATES_MAX {
                    groups.update(at, (name, groups[at].1.push(seed)))
                } else {
                    groups
                },
                None => if groups.len() < FLOW_ENDPOINTS_MAX {
                    groups.push((name, seq![seed]))
                } else {
                    groups
                },
            }
        }
    }
}

spec fn endpoints_ok(nodes: Seq<Node>, groups: Seq<Endpoint>) -> bool {
    &&& groups.len() <= FLOW_ENDPOINTS_MAX
    &&& forall|i: int|
        0 <= i < groups.len() ==> 0 < (#[trigger] groups[i]).candidates@.len()
            <= FLOW_CANDIDATES_MAX && positions_valid(nodes, groups[i].candidates@)
}

fn holds_text(texts: &[String], wanted: &str) -> (found: bool)
    ensures
        found == views(texts@).contains(wanted@),
{
    for i in 0..texts.len()
        invariant
            forall|k: int| 0 <= k < i ==> views(texts@)[k] != wanted@,
    {
        if same_text(texts[i].as_str(), wanted) {
            assert(views(texts@)[i as int] == wanted@);
            return true;
        }
    }
    assert(texts@.len() == views(texts@).len());
    false
}

fn find_endpoint(groups: &Vec<Endpoint>, name: &str) -> (found: Option<usize>)
    ensures
        match found {
            Some(at) => at < groups@.len() && endpoint_at(endpoint_views(groups@), name@, 0)
                == Some(at as int),
            None => endpoint_at(endpoint_views(groups@), name@, 0) is None,
        },
{
    let mut i: usize = 0;
    while i < groups.len()
        invariant
            i <= groups@.len(),
            endpoint_at(endpoint_views(groups@), name@, 0) == endpoint_at(
                endpoint_views(groups@),
                name@,
                i as int,
            ),
        decreases groups@.len() - i,
    {
        assert(endpoint_views(groups@)[i as int].0 == groups@[i as int].name@);
        if same_text(groups[i].name.as_str(), name) {
            return Some(i);
        }
        i += 1;
    }
    None
}

fn group_endpoints(nodes: &[Node], tokens: &[String], seeds: &[usize]) -> (groups: Vec<Endpoint>)
    requires
        positions_valid(nodes@, seeds@),
    ensures
        endpoint_views(groups@) == endpoints_upto(
            nodes@,
            views(tokens@),
            seeds@,
            seeds@.len() as int,
        ),
        endpoints_ok(nodes@, groups@),
{
    let mut groups: Vec<Endpoint> = Vec::new();
    assert(endpoint_views(groups@) =~= Seq::empty());
    for i in 0..seeds.len()
        invariant
            positions_valid(nodes@, seeds@),
            endpoints_ok(nodes@, groups@),
            endpoint_views(groups@) == endpoints_upto(nodes@, views(tokens@), seeds@, i as int),
    {
        let position: usize = seeds[i];
        assert(seeds@[i as int] < nodes@.len());
        let name = lowercase(nodes[position].name.as_str());
        let ghost before = groups@;
        if holds_text(tokens, name.as_str()) {
            match find_endpoint(&groups, name.as_str()) {
                Some(at) => {
                    proof {
                        lemma_endpoint_at(endpoint_views(groups@), name@, 0);
                    }
                    if groups[at].candidates.len() < FLOW_CANDIDATES_MAX {
                        let mut candidates: Vec<usize> = Vec::new();
                        let known: usize = groups[at].candidates.len();
                        for k in 0..known
                            invariant
                                at < groups@.len(),
                                known == groups@[at as int].candidates@.len(),
                                candidates@ == groups@[at as int].candidates@.take(k as int),
                        {
                            candidates.push(groups[at].candidates[k]);
                            assert(groups@[at as int].candidates@.take(k + 1)
                                =~= groups@[at as int].candidates@.take(k as int).push(
                                groups@[at as int].candidates@[k as int],
                            ));
                        }
                        assert(candidates@ =~= before[at as int].candidates@);
                        candidates.push(position);
                        assert(positions_valid(nodes@, candidates@)) by {
                            assert(positions_valid(nodes@, before[at as int].candidates@));
                        }
                        let ghost entry = (name@, candidates@);
                        groups.set(at, Endpoint { name, candidates });
                        assert(endpoint_views(groups@) =~= endpoint_views(before).update(
                            at as int,
                            entry,
                        ));
                    }
                },
                None => {
                    if groups.len() < FLOW_ENDPOINTS_MAX {
                        let mut candidates: Vec<usize> = Vec::new();
                        candidates.push(position);
                        assert(candidates@ =~= seq![position]);
                        groups.push(Endpoint { name, candidates });
                        assert(endpoint_views(groups@) =~= endpoint_views(before).push(
                            (groups@.last().name@, seq![position]),
                        ));
                    }
                },
            }
        }
    }
    groups
}

proof fn lemma_endpoint_at(groups: Seq<(Seq<char>, Seq<usize>)>, name: Seq<char>, from: int)
    requires
        0 <= from,
    ensures
        match endpoint_at(groups, name, from) {
            Some(at) => from <= at < groups.len() && groups[at].0 == name,
            None => true,
        },
    decreases groups.len() - from,
{
    if from < groups.len() && groups[from].0 != name {
        lemma_endpoint_at(groups, name, from + 1);
    }
}

/// What tracing the pairs of endpoints has found so far.
pub struct Traced {
    pub text: Seq<char>,
    pub rendered: int,
    pub asked: Seq<(int, int)>,
}

/// The pairs of endpoints from (`first`, `second`) on, traced in order until enough paths
/// are rendered.
pub open spec fn trace_pairs(
    nodes: Seq<Node>,
    edges: Seq<Seq<(u32, EdgeKind)>>,
    groups: Seq<(Seq<char>, Seq<usize>)>,
    first: int,
    second: int,
    traced: Traced,
) -> Traced
    decreases groups.len() - first, groups.len() - second,
{
    if first >= groups.len() {
        traced
    } else if second >= groups.len() || traced.rendered >= FLOW_PATHS_MAX {
        trace_pairs(nodes, edges, groups, first + 1, first + 2, traced)
    } else {
        let next = match connect_from(
            nodes,
            edges,
            groups[first].1,
            groups[second].1,
            0,
            0,
            false,
        ) {
            PairView::Connected(source, path) => Traced {
                text: traced.text + flow_path_text(nodes, source, path),
                rendered: traced.rendered + 1,
                asked: traced.asked,
            },
            PairView::Unconnected => Traced {
                text: traced.text,
                rendered: traced.rendered,
                asked: traced.asked.push((first, second)),
            },
            PairView::Containment => traced,
        };
        trace_pairs(nodes, edges, groups, first, second + 1, next)
    }
}

/// The name added behind the others, unless it is among them.
pub open spec fn with_name(names: Seq<Seq<char>>, name: Seq<char>) -> Seq<Seq<char>> {
    if names.contains(name) {
        names
    } else {
        names.push(name)
    }
}

/// The names of the endpoints of the pairs, each once, in order of appearance.
pub open spec fn asked_names(
    nodes: Seq<Node>,
    groups: Seq<(Seq<char>, Seq<usize>)>,
    asked: Seq<(int, int)>,
) -> Seq<Seq<char>>
    decreases asked.len(),
{
    if asked.len() == 0 {
        Seq::empty()
    } else {
        let names = asked_names(nodes, groups, asked.drop_last());
        let (first, second) = asked.last();
        with_name(
            with_name(names, nodes[groups[first].1[0] as int].name@),
            nodes[groups[second].1[0] as int].name@,
        )
    }
}

/// How many definitions the endpoints have together.
pub open spec fn searched(groups: Seq<(Seq<char>, Seq<usize>)>) -> nat
    decreases groups.len(),
{
    if groups.len() == 0 {
        0
    } else {
        searched(groups.drop_last()) + groups.last().1.len()
    }
}

/// The flow section of an answer to a query.
pub open spec fn flow_section_spec(
    nodes: Seq<Node>,
    edges: Seq<Seq<(u32, EdgeKind)>>,
    seeds: Seq<usize>,
    query: Seq<char>,
) -> Seq<char> {
    let tokens = query_tokens_spec(query);
    let groups = endpoints_upto(nodes, tokens, seeds, seeds.len() as int);
    let traced = trace_pairs(
        nodes,
        edges,
        groups,
        0,
        1,
        Traced { text: ""@, rendered: 0, asked: Seq::empty() },
    );
    if tokens.len() < 2 || groups.len() < 2 {
        ""@
    } else if traced.text.len() > 0 {
        "# flow: call paths among the named symbols:\n"@ + traced.text + "\n"@
    } else if traced.asked.len() == 0 {
        ""@
    } else {
        let breadth = if searched(groups) > groups.len() {
            " ("@ + decimal_spec(searched(groups)) + " definitions of those names searched)"@
        } else {
            ""@
        };
        "# flow: no call path among "@ + join_spec(asked_names(nodes, groups, traced.asked), ", "@)
            + " within "@ + decimal_spec(FLOW_HOPS_MAX as nat) + " hops"@ + breadth
            + " (edges may be missing for dynamic dispatch)\n\n"@
    }
}

fn add_name(names: &mut Vec<String>, name: &str)
    ensures
        views(final(names)@) == with_name(views(old(names)@), name@),
{
    if !holds_text(names.as_slice(), name) {
        let ghost before = names@;
        names.push(copy(name));
        assert(views(names@) =~= views(before).push(name@));
    }
}

/// The shortest call paths between the symbols a query names, rendered as a section to stand
/// ahead of the answer. Empty when fewer than two symbols are named; where no two of them
/// connect it says so, since silence is no answer to the question asked.
pub fn flow_section(
    nodes: &[Node],
    out_edges: &[Vec<(u32, EdgeKind)>],
    seed_positions: &[usize],
    query: &str,
) -> (section: String)
    requires
        nodes@.len() == out_edges@.len(),
        edges_valid(edge_lists(out_edges@)),
        positions_valid(nodes@, seed_positions@),
    ensures
        section@ == flow_section_spec(
            nodes@,
            edge_lists(out_edges@),
            seed_positions@,
            query@,
        ),
{
    proof {
        reveal_strlit("");
    }
    let tokens = query_tokens(query);
    assert(tokens@.len() == views(tokens@).len());
    if tokens.len() < 2 {
        return copy("");
    }
    let groups = group_endpoints(nodes, tokens.as_slice(), seed_positions);
    let ghost views_of = endpoint_views(groups@);
    assert(groups@.len() == views_of.len());
    if groups.len() < 2 {
        return copy("");
    }
    let ghost edges = edge_lists(out_edges@);
    let ghost start = Traced { text: ""@, rendered: 0, asked: Seq::empty() };
    let ghost goal = trace_pairs(nodes@, edges, views_of, 0, 1, start);
    let mut out = copy("");
    let mut rendered: usize = 0;
    let mut asked: Vec<(usize, usize)> = Vec::new();
    assert(asked_view(asked@) =~= Seq::empty());
    let mut first: usize = 0;
    while first < groups.len()
        invariant
            edges == edge_lists(out_edges@),
            edges_valid(edges),
            nodes@.len() == out_edges@.len(),
            endpoints_ok(nodes@, groups@),
            views_of == endpoint_views(groups@),
            first <= groups@.len(),
            rendered <= FLOW_PATHS_MAX,
            asked_ok(asked@, groups@.len() as int),
            goal == trace_pairs(
                nodes@,
                edges,
                views_of,
                first as int,
                first + 1,
                Traced { text: out@, rendered: rendered as int, asked: asked_view(asked@) },
            ),
        decreases groups@.len() - first,
    {
        let mut second: usize = first + 1;
        while second < groups.len() && rendered < FLOW_PATHS_MAX
            invariant
                edges == edge_lists(out_edges@),
                edges_valid(edges),
                nodes@.len() == out_edges@.len(),
                endpoints_ok(nodes@, groups@),
                views_of == endpoint_views(groups@),
                first < groups@.len(),
                first < second <= groups@.len(),
                rendered <= FLOW_PATHS_MAX,
                asked_ok(asked@, groups@.len() as int),
                goal == trace_pairs(
                    nodes@,
                    edges,
                    views_of,
                    first as int,
                    second as int,
                    Traced { text: out@, rendered: rendered as int, asked: asked_view(asked@) },
                ),
            decreases groups@.len() - second,
        {
            let ghost asked_before = asked@;
            assert(groups@[first as int].candidates@ == views_of[first as int].1);
            assert(groups@[second as int].candidates@ == views_of[second as int].1);
            proof {
                lemma_connected_valid(
                    nodes@,
                    edges,
                    views_of[first as int].1,
                    views_of[second as int].1,
                    0,
                    0,
                    false,
                );
            }
            match connect_groups(
                nodes,
                out_edges,
                groups[first].candidates.as_slice(),
                groups[second].candidates.as_slice(),
            ) {
                PairOutcome::Connected(source, path) => {
                    let text = render_flow_path(nodes, source, path.as_slice());
                    out.append(text.as_str());
                    rendered += 1;
                },
                PairOutcome::Unconnected => {
                    asked.push((first, second));
                    assert(asked_view(asked@) =~= asked_view(asked_before).push(
                        (first as int, second as int),
                    ));
                },
                PairOutcome::Containment => {},
            }
            second += 1;
        }
        first += 1;
    }
    if out.as_str().is_empty() {
        assert(asked@.len() == asked_view(asked@).len());
        if asked.len() == 0 {
            return copy("");
        }
        let ghost pairs = asked_view(asked@);
        let mut names: Vec<String> = Vec::new();
        assert(views(names@) =~= asked_names(nodes@, views_of, pairs.take(0)));
        for i in 0..asked.len()
            invariant
                pairs == asked_view(asked@),
                endpoints_ok(nodes@, groups@),
                views_of == endpoint_views(groups@),
                asked_ok(asked@, groups@.len() as int),
                views(names@) == asked_names(nodes@, views_of, pairs.take(i as int)),
        {
            assert(pairs.take(i + 1).drop_last() =~= pairs.take(i as int));
            let (one, two) = asked[i];
            assert(asked@[i as int].0 < groups@.len() && asked@[i as int].1 < groups@.len());
            assert(groups@[one as int].candidates@ == views_of[one as int].1);
            assert(groups@[two as int].candidates@ == views_of[two as int].1);
            assert(groups@[one as int].candidates@[0] < nodes@.len());
            assert(groups@[two as int].candidates@[0] < nodes@.len());
            add_name(&mut names, nodes[groups[one].candidates[0]].name.as_str());
            add_name(&mut names, nodes[groups[two].candidates[0]].name.as_str());
        }
        assert(pairs.take(asked@.len() as int) =~= pairs);
        let mut total: usize = 0;
        for i in 0..groups.len()
            invariant
                endpoints_ok(nodes@, groups@),
                views_of == endpoint_views(groups@),
                total == searched(views_of.take(i as int)),
                total <= i * FLOW_CANDIDATES_MAX,
        {
            assert(views_of.take(i + 1).drop_last() =~= views_of.take(i as int));
            assert(views_of[i as int].1 == groups@[i as int].candidates@);
            total += groups[i].candidates.len();
        }
        assert(views_of.take(groups@.len() as int) =~= views_of);
        let breadth = if total > groups.len() {
            cat3(" (", decimal_usize(total).as_str(), " definitions of those names searched)")
        } else {
            copy("")
        };
        let joined = join(names.as_slice(), ", ");
        let hops = decimal_u32(FLOW_HOPS_MAX);
        let mut text = cat5(
            "# flow: no call path among ",
            joined.as_str(),
            " within ",
            hops.as_str(),
            " hops",
        );
        text.append(breadth.as_str());
        text.append(" (edges may be missing for dynamic dispatch)\n\n");
        return text;
    }
    cat3("# flow: call paths among the named symbols:\n", out.as_str(), "\n")
}

spec fn asked_view(asked: Seq<(usize, usize)>) -> Seq<(int, int)> {
    asked.map_values(|pair: (usize, usize)| (pair.0 as int, pair.1 as int))
}

spec fn asked_ok(asked: Seq<(usize, usize)>, count: int) -> bool {
    forall|i: int|
        0 <= i < asked.len() ==> (#[trigger] asked[i]).0 < count && asked[i].1 < count
}

// ---------------------------------------------------------------------------
// The flow listings

/// One precomputed flow: its entry point, the shape of its reach set, and its criticality as
/// the listing prints it.
pub struct FlowRow {
    pub project_id: String,
    pub name: String,
    pub entry_kind: String,
    pub node_count: u32,
    pub file_count: u32,
    pub app_count: u32,
    pub project_count: u32,
    pub depth_max: u32,
    pub criticality: String,
    pub truncated: bool,
}

/// The order a flow listing asks the store for.
#[derive(Clone, Copy, Debug, PartialEq, Eq, Structural)]
pub enum FlowSort {
    Criticality,
    Size,
    Name,
}

impl FlowSort {
    /// The label a caller names the order by.
    pub open spec fn label(self) -> Seq<char> {
        match self {
            FlowSort::Criticality => "criticality"@,
            FlowSort::Size => "size"@,
            FlowSort::Name => "name"@,
        }
    }

    /// The order with this label.
    pub open spec fn named(text: Seq<char>) -> Option<FlowSort> {
        if text == "criticality"@ {
            Some(FlowSort::Criticality)
        } else if text == "size"@ {
            Some(FlowSort::Size)
        } else if text == "name"@ {
            Some(FlowSort::Name)
        } else {
            None
        }
    }

    /// The order with this label, if there is one.
    pub fn from_str_label(text: &str) -> (found: Option<FlowSort>)
        ensures
            found == FlowSort::named(text@),
    {
        if same_text(text, "criticality") {
            Some(FlowSort::Criticality)
        } else if same_text(text, "size") {
            Some(FlowSort::Size)
        } else if same_text(text, "name") {
            Some(FlowSort::Name)
        } else {
            None
        }
    }
}

/// Every order is read back from its own label.
pub proof fn law_flow_sort_labels_read_back(sort: FlowSort)
    ensures
        FlowSort::named(sort.label()) == Some(sort),
{
    reveal_strlit("criticality");
    reveal_strlit("size");
    reveal_strlit("name");
    assert("criticality"@.len() == 11);
    assert("size"@.len() == 4);
    assert("name"@.len() == 4);
    assert("size"@[0] == 's');
    assert("name"@[0] == 'n');
}

/// Some project has flows.
pub open spec fn any_counted(counts: Seq<u64>) -> bool {
    exists|i: int| 0 <= i < counts.len() && #[trigger] counts[i] > 0
}

/// Whether any project has computed flows, by the flow count of each, so an empty result can
/// tell "the pass never ran" apart from "it ran, nothing matched".
pub fn any_flows_computed(counts: &[u64]) -> (found: bool)
    ensures
        found == any_counted(counts@),
{
    for i in 0..counts.len()
        invariant
            forall|k: int| 0 <= k < i ==> !(#[trigger] counts@[k] > 0),
    {
        if counts[i] > 0 {
            return true;
        }
    }
    false
}

/// What a flow listing does next: answer at once, or fetch flows and go on.
pub enum FlowsStep {
    Answer(String),
    Fetch { project: Option<usize>, sort: FlowSort, count: u32 },
}

/// The lower-case form of a pattern that is given and not empty.
pub open spec fn needle_of(pattern: Option<&str>) -> Option<Seq<char>> {
    match pattern {
        Some(pattern) => if pattern@.len() > 0 {
            Some(lowercased(pattern@))
        } else {
            None
        },
        None => None,
    }
}

/// How many flows a listing fetches.
pub open spec fn flows_fetch(pattern: Option<&str>, limit: u32) -> int {
    if needle_of(pattern) is Some && limit <= FLOWS_FETCH_MAX {
        FLOWS_FETCH_MAX as int
    } else {
        limit as int
    }
}

/// A project is asked for by a name that none answers to.
pub open spec fn names_no_project(projects: Seq<Project>, filter: Option<&str>) -> bool {
    match filter {
        Some(name) => project_named(projects, name@, 0) is None,
        None => false,
    }
}

/// The plan of a flow listing: an unknown project or sort is answered at once; else the flows
/// to fetch. A listing with a pattern over-fetches, so filtering to a handful of matches still
/// has candidates to filter from.
pub fn flows_request(
    projects: &[Project],
    project_filter: Option<&str>,
    pattern: Option<&str>,
    sort: Option<&str>,
    limit: u32,
) -> (step: FlowsStep)
    ensures
        match step {
            FlowsStep::Answer(text) => if names_no_project(projects@, project_filter) {
                text@ == "no project named "@ + quoted(project_filter->0@)
            } else {
                &&& sort is Some
                &&& FlowSort::named(sort->0@) is None
                &&& text@ == "unknown sort "@ + quoted(sort->0@)
                    + "; valid values are criticality, size, name"@
            },
            FlowsStep::Fetch { project, sort: chosen, count } => {
                &&& match project_filter {
                    Some(name) => project is Some && project_named(projects@, name@, 0) == Some(
                        project->0 as int,
                    ),
                    None => project is None,
                }
                &&& match sort {
                    Some(label) => FlowSort::named(label@) == Some(chosen),
                    None => chosen == FlowSort::Criticality,
                }
                &&& count == flows_fetch(pattern, limit)
            },
        },
{
    let project: Option<usize> = match project_filter {
        Some(name) => match find_project(projects, name) {
            Some(at) => Some(at),
            None => {
                return FlowsStep::Answer(cat2("no project named ", quote(name).as_str()));
            },
        },
        None => None,
    };
    let chosen: FlowSort = match sort {
        Some(label) => match FlowSort::from_str_label(label) {
            Some(chosen) => chosen,
            None => {
                return FlowsStep::Answer(
                    cat3(
                        "unknown sort ",
                        quote(label).as_str(),
                        "; valid values are criticality, size, name",
                    ),
                );
            },
        },
        None => FlowSort::Criticality,
    };
    let filtered: bool = match pattern {
        Some(pattern) => !pattern.is_empty(),
        None => false,
    };
    let count: u32 = if filtered && limit <= FLOWS_FETCH_MAX {
        FLOWS_FETCH_MAX
    } else {
        limit
    };
    FlowsStep::Fetch { project, sort: chosen, count }
}

/// The flow matches the pattern: by its name or by its entry kind, in lower case.
pub open spec fn flow_matches(flow: FlowRow, needle: Option<Seq<char>>) -> bool {
    match needle {
        Some(needle) => occurs(lowercased(flow.name@), needle) || occurs(
            lowercased(flow.entry_kind@),
            needle,
        ),
        None => true,
    }
}

/// The positions, below `count`, of the flows that match.
pub open spec fn matching(flows: Seq<FlowRow>, needle: Option<Seq<char>>, count: int) -> Seq<int>
    decreases count,
{
    if count <= 0 {
        Seq::empty()
    } else if flow_matches(flows[count - 1], needle) {
        matching(flows, needle, count - 1).push(count - 1)
    } else {
        matching(flows, needle, count - 1)
    }
}

/// One flow on a line of its own.
pub open spec fn flow_row_text(flow: FlowRow) -> Seq<char> {
    let crossing = if flow.project_count > 0 {
        " crossing "@ + decimal_spec(flow.project_count as nat) + " other project(s)"@
    } else {
        ""@
    };
    let truncated = if flow.truncated {
        "  [reach truncated]"@
    } else {
        ""@
    };
    "  "@ + flow.name@ + " ("@ + flow.entry_kind@ + ") -> "@ + decimal_spec(flow.node_count as nat)
        + " symbols across "@ + decimal_spec(flow.file_count as nat) + " files in "@
        + decimal_spec(flow.app_count as nat) + " app(s)"@ + crossing + ", depth "@ + decimal_spec(
        flow.depth_max as nat,
    ) + ", criticality "@ + flow.criticality@ + truncated + "\n"@
}

/// The positions of flows with those of one project brought together, the projects in first-seen
/// order.
pub open spec fn by_project(flows: Seq<FlowRow>, shown: Seq<int>) -> Seq<int> {
    grouped_order(shown.map_values(|at: int| flows[at].project_id@)).map_values(|k: int| shown[k])
}

/// The flows at the first `count` of these positions: a project's heading stands before each row
/// whose project differs from the one before.
pub open spec fn flow_rows_text(flows: Seq<FlowRow>, shown: Seq<int>, count: int) -> Seq<char>
    decreases count,
{
    if count <= 0 {
        ""@
    } else {
        let flow = flows[shown[count - 1]];
        let before = if count == 1 {
            ""@
        } else {
            flows[shown[count - 2]].project_id@
        };
        let heading = if flow.project_id@ != before {
            "["@ + flow.project_id@ + "]\n"@
        } else {
            ""@
        };
        flow_rows_text(flows, shown, count - 1) + heading + flow_row_text(flow)
    }
}

fn flow_row(flow: &FlowRow) -> (text: String)
    ensures
        text@ == flow_row_text(*flow),
{
    let crossing = if flow.project_count > 0 {
        cat3(" crossing ", decimal_u32(flow.project_count).as_str(), " other project(s)")
    } else {
        copy("")
    };
    let truncated = if flow.truncated {
        "  [reach truncated]"
    } else {
        ""
    };
    let mut text = cat5("  ", flow.name.as_str(), " (", flow.entry_kind.as_str(), ") -> ");
    text.append(decimal_u32(flow.node_count).as_str());
    text.append(" symbols across ");
    text.append(decimal_u32(flow.file_count).as_str());
    text.append(" files in ");
    text.append(decimal_u32(flow.app_count).as_str());
    text.append(" app(s)");
    text.append(crossing.as_str());
    text.append(", depth ");
    text.append(decimal_u32(flow.depth_max).as_str());
    text.append(", criticality ");
    text.append(flow.criticality.as_str());
    text.append(truncated);
    text.append("\n");
    text
}

/// The flow rows at these positions rendered, grouped by project in first-seen order, each on
/// one line naming its entry kind, reach shape, and criticality.
pub fn render_flow_rows(flows: &[FlowRow], shown: &[usize]) -> (text: String)
    requires
        forall|i: int| 0 <= i < shown@.len() ==> #[trigger] shown@[i] < flows@.len(),
    ensures
        text@ == flow_rows_text(flows@, by_project(flows@, indices(shown@)), shown@.len() as int),
{
    let mut projects: Vec<String> = Vec::new();
    assert(views(projects@) =~= Seq::empty());
    for i in 0..shown.len()
        invariant
            forall|i: int| 0 <= i < shown@.len() ==> #[trigger] shown@[i] < flows@.len(),
            views(projects@) == indices(shown@).map_values(|at: int| flows@[at].project_id@).take(
                i as int,
            ),
    {
        let ghost known = projects@;
        assert(shown@[i as int] < flows@.len());
        assert(indices(shown@)[i as int] == shown@[i as int]);
        projects.push(copy(flows[shown[i]].project_id.as_str()));
        assert(views(projects@) =~= indices(shown@).map_values(
            |at: int| flows@[at].project_id@,
        ).take(i + 1)) by {
            assert(views(projects@) =~= views(known).push(flows@[shown@[i as int] as int].project_id@));
        }
    }
    let ghost names = indices(shown@).map_values(|at: int| flows@[at].project_id@);
    assert(names.take(shown@.len() as int) =~= names);
    assert(projects@.len() == views(projects@).len());
    let order = group_order(&projects);
    let ghost grouped = by_project(flows@, indices(shown@));
    assert(indices(order@).len() == order@.len());
    assert forall|k: int| 0 <= k < order@.len() implies #[trigger] grouped[k]
        == shown@[order@[k] as int] by {
        assert(indices(order@)[k] == order@[k]);
        assert(indices(shown@)[order@[k] as int] == shown@[order@[k] as int]);
    }
    let mut text = copy("");
    for i in 0..order.len()
        invariant
            order@.len() == shown@.len(),
            forall|i: int| 0 <= i < shown@.len() ==> #[trigger] shown@[i] < flows@.len(),
            forall|k: int| 0 <= k < order@.len() ==> #[trigger] order@[k] < shown@.len(),
            forall|k: int|
                0 <= k < order@.len() ==> #[trigger] grouped[k] == shown@[order@[k] as int],
            text@ == flow_rows_text(flows@, grouped, i as int),
    {
        assert(order@[i as int] < shown@.len());
        assert(grouped[i as int] == shown@[order@[i as int] as int]);
        let flow = &flows[shown[order[i]]];
        let before: &str = if i == 0 {
            ""
        } else {
            assert(order@[i - 1] < shown@.len());
            assert(grouped[i - 1] == shown@[order@[i - 1] as int]);
            flows[shown[order[i - 1]]].project_id.as_str()
        };
        let heading = if !same_text(flow.project_id.as_str(), before) {
            cat3("[", flow.project_id.as_str(), "]\n")
        } else {
            copy("")
        };
        text.append(heading.as_str());
        text.append(flow_row(flow).as_str());
    }
    text
}

/// The reply when a flow query matches nothing, distinguishing "no flows computed yet" from
/// "flows exist but none matches this filter".
pub open spec fn flows_empty_text(
    any_computed: bool,
    project_filter: Option<&str>,
    pattern: Option<&str>,
) -> Seq<char> {
    if !any_computed {
        "no execution flows computed (run `constellation flows` to trace them)"@
    } else if pattern is Some && pattern->0@.len() > 0 {
        "no flows matching "@ + quoted(pattern->0@)
    } else {
        match project_filter {
            Some(project) => "no flows for "@ + quoted(project@),
            None => "no flows match"@,
        }
    }
}

pub fn flows_empty_message(
    any_computed: bool,
    project_filter: Option<&str>,
    pattern: Option<&str>,
) -> (text: String)
    ensures
        text@ == flows_empty_text(any_computed, project_filter, pattern),
{
    if !any_computed {
        return copy("no execution flows computed (run `constellation flows` to trace them)");
    }
    match pattern {
        Some(pattern) => {
            if !pattern.is_empty() {
                return cat2("no flows matching ", quote(pattern).as_str());
            }
        },
        None => {},
    }
    match project_filter {
        Some(project) => cat2("no flows for ", quote(project).as_str()),
        None => copy("no flows match"),
    }
}

/// The flow listing over the flows that were fetched.
pub open spec fn flows_text_spec(
    flows: Seq<FlowRow>,
    any_computed: bool,
    project_filter: Option<&str>,
    pattern: Option<&str>,
    limit: u32,
) -> Seq<char> {
    let matched = matching(flows, needle_of(pattern), flows.len() as int);
    let shown = if matched.len() > limit {
        matched.take(limit as int)
    } else {
        matched
    };
    let more = if matched.len() > shown.len() {
        "(+"@ + decimal_spec((matched.len() - shown.len()) as nat)
            + " more; raise limit or narrow with pattern=)\n"@
    } else {
        ""@
    };
    if matched.len() == 0 {
        flows_empty_text(any_computed, project_filter, pattern)
    } else {
        "execution flows ("@ + decimal_spec(shown.len()) + " of "@ + decimal_spec(matched.len())
            + " shown, most critical first):\n"@ + flow_rows_text(
            flows,
            by_project(flows, shown),
            shown.len() as int,
        ) + more
    }
}

fn flow_has(flow: &FlowRow, needle: &str) -> (found: bool)
    ensures
        found == flow_matches(*flow, Some(needle@)),
{
    let name = lowercase(flow.name.as_str());
    let entry_kind = lowercase(flow.entry_kind.as_str());
    contains(name.as_str(), needle) || contains(entry_kind.as_str(), needle)
}

/// The precomputed execution flows, ranked, grouped by project. Each names its entry point and
/// the shape of its reach set.
pub fn flows_text(
    flows: &[FlowRow],
    any_computed: bool,
    project_filter: Option<&str>,
    pattern: Option<&str>,
    limit: u32,
) -> (text: String)
    ensures
        text@ == flows_text_spec(flows@, any_computed, project_filter, pattern, limit),
{
    let ghost needle = needle_of(pattern);
    let wanted: Option<String> = match pattern {
        Some(pattern) => if pattern.is_empty() {
            None
        } else {
            Some(lowercase(pattern))
        },
        None => None,
    };
    let mut matched: Vec<usize> = Vec::new();
    assert(indices(matched@) =~= Seq::empty());
    for i in 0..flows.len()
        invariant
            match wanted {
                Some(wanted) => needle == Some(wanted@),
                None => needle is None,
            },
            indices(matched@) == matching(flows@, needle, i as int),
            forall|k: int| 0 <= k < matched@.len() ==> #[trigger] matched@[k] < flows@.len(),
    {
        let keep: bool = match &wanted {
            Some(wanted) => flow_has(&flows[i], wanted.as_str()),
            None => true,
        };
        if keep {
            let ghost before = matched@;
            matched.push(i);
            assert(indices(matched@) =~= indices(before).push(i as int));
        }
    }
    assert(matched@.len() == indices(matched@).len());
    let total: usize = matched.len();
    if total == 0 {
        return flows_empty_message(any_computed, project_filter, pattern);
    }
    let ghost all = indices(matched@);
    let mut shown = matched;
    if limit as u64 <= usize::MAX as u64 && shown.len() > limit as usize {
        shown.truncate(limit as usize);
        assert(indices(shown@) =~= all.take(limit as int));
    }
    let mut text = cat5(
        "execution flows (",
        decimal_usize(shown.len()).as_str(),
        " of ",
        decimal_usize(total).as_str(),
        " shown, most critical first):\n",
    );
    text.append(render_flow_rows(flows, shown.as_slice()).as_str());
    let more = if total > shown.len() {
        cat3(
            "(+",
            decimal_usize(total - shown.len()).as_str(),
            " more; raise limit or narrow with pattern=)\n",
        )
    } else {
        copy("")
    };
    text.append(more.as_str());
    text
}

/// What a change was read from: the given files, or the diff against a revision.
pub open spec fn change_source(base: Option<&str>, files_given: bool) -> Seq<char> {
    if files_given {
        "the given files"@
    } else {
        "the diff against "@ + (match base {
            Some(base) => base@,
            None => "HEAD"@,
        })
    }
}

/// The answer on the flows a change takes part in.
pub open spec fn affected_flows_spec(
    node_count: int,
    flows: Seq<FlowRow>,
    any_computed: bool,
    base: Option<&str>,
    files_given: bool,
) -> Seq<char> {
    let source = change_source(base, files_given);
    if node_count == 0 {
        "no indexed symbols in "@ + source
    } else if flows.len() == 0 && !any_computed {
        "no execution flows computed (run `constellation flows` to trace them)"@
    } else if flows.len() == 0 {
        "no flows contain the "@ + decimal_spec(node_count as nat) + " symbol(s) in "@ + source
            + " (the change sits outside every traced execution path)"@
    } else {
        "flows affected by "@ + source + ": "@ + decimal_spec(flows.len()) + " flow(s) over "@
            + decimal_spec(node_count as nat) + " changed symbol(s), most critical first:\n"@
            + flow_rows_text(
            flows,
            by_project(flows, Seq::new(flows.len(), |i: int| i)),
            flows.len() as int,
        )
    }
}

/// The flows a change participates in, over the ids of the symbols it touched and the flows
/// whose reach set holds one of them.
pub fn affected_flows_text(
    node_count: usize,
    flows: &[FlowRow],
    any_computed: bool,
    base: Option<&str>,
    files_given: bool,
) -> (text: String)
    ensures
        text@ == affected_flows_spec(node_count as int, flows@, any_computed, base, files_given),
{
    let source = if files_given {
        copy("the given files")
    } else {
        cat2(
            "the diff against ",
            match base {
                Some(base) => base,
                None => "HEAD",
            },
        )
    };
    if node_count == 0 {
        return cat2("no indexed symbols in ", source.as_str());
    }
    let count = decimal_usize(node_count);
    if flows.len() == 0 {
        if !any_computed {
            return copy("no execution flows computed (run `constellation flows` to trace them)");
        }
        return cat5(
            "no flows contain the ",
            count.as_str(),
            " symbol(s) in ",
            source.as_str(),
            " (the change sits outside every traced execution path)",
        );
    }
    let mut shown: Vec<usize> = Vec::new();
    for i in 0..flows.len()
        invariant
            indices(shown@) == Seq::new(i as nat, |k: int| k),
            forall|k: int| 0 <= k < shown@.len() ==> #[trigger] shown@[k] < flows@.len(),
    {
        let ghost before = shown@;
        shown.push(i);
        assert(indices(shown@) =~= indices(before).push(i as int));
    }
    assert(shown@.len() == indices(shown@).len());
    let mut text = cat5(
        "flows affected by ",
        source.as_str(),
        ": ",
        decimal_usize(flows.len()).as_str(),
        " flow(s) over ",
    );
    text.append(count.as_str());
    text.append(" changed symbol(s), most critical first:\n");
    text.append(render_flow_rows(flows, shown.as_slice()).as_str());
    text
}

/// The ids of all batches one after another.
pub open spec fn all_ids(batches: Seq<Vec<String>>) -> Seq<Seq<char>>
    decreases batches.len(),
{
    if batches.len() == 0 {
        Seq::empty()
    } else {
        all_ids(batches.drop_last()) + views(batches.last()@)
    }
}

/// The ids of every batch one after another, bounded so an enormous diff stays one query.
pub fn gather_ids(batches: &[Vec<String>]) -> (ids: Vec<String>)
    ensures
        views(ids@) == (if all_ids(batches@).len() > AFFECTED_FLOW_NODES_MAX {
            all_ids(batches@).take(AFFECTED_FLOW_NODES_MAX as int)
        } else {
            all_ids(batches@)
        }),
{
    let mut ids: Vec<String> = Vec::new();
    assert(batches@.take(0) =~= Seq::empty());
    assert(views(ids@) =~= Seq::empty());
    for i in 0..batches.len()
        invariant
            views(ids@) == all_ids(batches@.take(i as int)),
            ids@.len() <= AFFECTED_FLOW_NODES_MAX,
    {
        let ghost start = all_ids(batches@.take(i as int));
        assert(batches@.take(i + 1).drop_last() =~= batches@.take(i as int));
        assert(all_ids(batches@.take(i + 1)) == start + views(batches@[i as int]@));
        let count: usize = batches[i].len();
        for k in 0..count
            invariant
                i < batches@.len(),
                count == batches@[i as int]@.len(),
                start == all_ids(batches@.take(i as int)),
                all_ids(batches@.take(i + 1)) == start + views(batches@[i as int]@),
                views(ids@) == start + views(batches@[i as int]@).take(k as int),
                ids@.len() <= AFFECTED_FLOW_NODES_MAX,
        {
            if ids.len() >= AFFECTED_FLOW_NODES_MAX {
                proof {
                    lemma_all_ids_prefix(batches@, i + 1);
                    let whole = all_ids(batches@);
                    let upto = all_ids(batches@.take(i + 1));
                    assert(ids@.len() == views(ids@).len());
                    assert(upto.len() > AFFECTED_FLOW_NODES_MAX);
                    assert(views(ids@) =~= upto.take(AFFECTED_FLOW_NODES_MAX as int));
                    assert(whole.take(AFFECTED_FLOW_NODES_MAX as int) =~= upto.take(
                        AFFECTED_FLOW_NODES_MAX as int,
                    ));
                }
                return ids;
            }
            let ghost before = ids@;
            ids.push(copy(batches[i][k].as_str()));
            assert(views(ids@) =~= views(before).push(batches@[i as int]@[k as int]@));
            assert(views(batches@[i as int]@).take(k + 1) =~= views(batches@[i as int]@).take(
                k as int,
            ).push(batches@[i as int]@[k as int]@));
            assert(views(ids@) =~= start + views(batches@[i as int]@).take(k + 1));
        }
        assert(views(batches@[i as int]@).take(count as int) =~= views(batches@[i as int]@));
    }
    assert(batches@.take(batches@.len() as int) =~= batches@);
    assert(ids@.len() == views(ids@).len());
    ids
}

proof fn lemma_all_ids_prefix(batches: Seq<Vec<String>>, count: int)
    requires
        0 <= count <= batches.len(),
    ensures
        all_ids(batches.take(count)).is_prefix_of(all_ids(batches)),
    decreases batches.len() - count,
{
    if count == batches.len() {
        assert(batches.take(count) =~= batches);
    } else {
        assert(batches.take(count + 1).drop_last() =~= batches.take(count));
        lemma_all_ids_prefix(batches, count + 1);
        let shorter = all_ids(batches.take(count));
        let longer = all_ids(batches.take(count + 1));
        let whole = all_ids(batches);
        assert(longer == shorter + views(batches[count]@));
        assert(longer =~= whole.subrange(0, longer.len() as int));
        assert(shorter =~= whole.subrange(0, shorter.len() as int)) by {
            assert forall|i: int| 0 <= i < shorter.len() implies shorter[i] == whole[i] by {
                assert(longer[i] == shorter[i]);
                assert(whole.subrange(0, longer.len() as int)[i] == whole[i]);
            }
        }
    }
}

/// The path as the index stores it, with separators that lean one way.
pub fn stored_path(file: &str) -> (path: String)
    ensures
        path@ == replaced(file@, '\\', '/'),
{
    replace(file, '\\', '/')
}

/// Where no flows were computed, the answer names the command that computes them.
pub proof fn law_missing_flows_name_their_command(
    project_filter: Option<&str>,
    pattern: Option<&str>,
    limit: u32,
    node_count: int,
    base: Option<&str>,
    files_given: bool,
)
    requires
        node_count > 0,
    ensures
        occurs(
            flows_text_spec(Seq::empty(), false, project_filter, pattern, limit),
            "`constellation flows`"@,
        ),
        occurs(
            affected_flows_spec(node_count, Seq::empty(), false, base, files_given),
            "`constellation flows`"@,
        ),
{
    let text = "no execution flows computed (run `constellation flows` to trace them)"@;
    let command = "`constellation flows`"@;
    reveal_strlit("no execution flows computed (run `constellation flows` to trace them)");
    reveal_strlit("`constellation flows`");
    assert(text.subrange(33, 54) =~= command);
    assert(occurs_at(text, command, 33));
}

/// One unconnected definition never stands in for its name: where two names are not connected,
/// every definition of one was tried against every definition of the other in both directions, but
/// for a class and its own member; and where each pair is such a class and member, nothing is
/// reported missing.
pub proof fn law_every_definition_is_tried(
    nodes: Seq<Node>,
    edges: Seq<Seq<(u32, EdgeKind)>>,
    left: Seq<usize>,
    right: Seq<usize>,
    i: int,
    j: int,
    distinct: bool,
    a: int,
    b: int,
)
    requires
        0 <= i,
        0 <= j,
        i <= a < left.len(),
        0 <= b < right.len(),
        i == a ==> j <= b,
        !(connect_from(nodes, edges, left, right, i, j, distinct) is Connected),
    ensures
        owner_member(nodes[left[a] as int], nodes[right[b] as int]) || (flow_path(
            edges,
            left[a] as int,
            right[b] as int,
        ) is None && flow_path(edges, right[b] as int, left[a] as int) is None),
        connect_from(nodes, edges, left, right, i, j, distinct) is Containment ==> !distinct
            && owner_member(nodes[left[a] as int], nodes[right[b] as int]),
    decreases left.len() - i, right.len() - j,
{
    if j >= right.len() {
        law_every_definition_is_tried(nodes, edges, left, right, i + 1, 0, distinct, a, b);
    } else {
        let contained = owner_member(nodes[left[i] as int], nodes[right[j] as int]);
        let now = if contained {
            distinct
        } else {
            true
        };
        if i == a && j == b {
            if now {
                lemma_distinct_is_kept(nodes, edges, left, right, i, j + 1, now);
            }
        } else {
            law_every_definition_is_tried(nodes, edges, left, right, i, j + 1, now, a, b);
        }
    }
}

/// Once two distinct symbols were tried, the outcome is no containment.
proof fn lemma_distinct_is_kept(
    nodes: Seq<Node>,
    edges: Seq<Seq<(u32, EdgeKind)>>,
    left: Seq<usize>,
    right: Seq<usize>,
    i: int,
    j: int,
    distinct: bool,
)
    requires
        0 <= i,
        0 <= j,
        distinct,
    ensures
        !(connect_from(nodes, edges, left, right, i, j, distinct) is Containment),
    decreases left.len() - i, right.len() - j,
{
    if i < left.len() {
        if j >= right.len() {
            lemma_distinct_is_kept(nodes, edges, left, right, i + 1, 0, distinct);
        } else {
            lemma_distinct_is_kept(nodes, edges, left, right, i, j + 1, distinct);
        }
    }
}

// ---------------------------------------------------------------------------
// What a path is made of

/// The relations by which one symbol reaches another: it runs it, uses it or inherits from it.
pub open spec fn carries(kind: EdgeKind) -> bool {
    ||| kind is Calls
    ||| kind is Decorates
    ||| kind is Extends
    ||| kind is ExtendsTemplate
    ||| kind is Handles
    ||| kind is IncludesTemplate
    ||| kind is Instantiates
    ||| kind is Overrides
    ||| kind is Receives
    ||| kind is References
    ||| kind is Renders
    ||| kind is Resolves
    ||| kind is RoutesTo
}

/// The graph holds this hop.
pub open spec fn is_hop(
    edges: Seq<Seq<(u32, EdgeKind)>>,
    from: int,
    hop: (int, EdgeKind),
) -> bool {
    0 <= from < edges.len() && exists|k: int|
        0 <= k < edges[from].len() && (#[trigger] edges[from][k]).0 == hop.0 && edges[from][k].1
            == hop.1
}

/// Every hop of the path is one of the graph, out of where the hop before it led, along a relation
/// by which one symbol reaches another.
pub open spec fn reaches_by(
    edges: Seq<Seq<(u32, EdgeKind)>>,
    source: int,
    path: Seq<(int, EdgeKind)>,
) -> bool {
    forall|j: int|
        0 <= j < path.len() ==> carries((#[trigger] path[j]).1) && is_hop(
            edges,
            if j == 0 {
                source
            } else {
                path[j - 1].0
            },
            path[j],
        )
}

proof fn lemma_reaches_by(
    edges: Seq<Seq<(u32, EdgeKind)>>,
    source: int,
    path: Seq<(int, EdgeKind)>,
)
    ensures
        reaches_by(edges, source, path) == flow_walk(edges, source, path),
    decreases path.len(),
{
    if path.len() > 0 {
        let shorter = path.drop_last();
        let last = path.len() - 1;
        lemma_reaches_by(edges, source, shorter);
        assert(forall|j: int| 0 <= j < last ==> #[trigger] shorter[j] == path[j]);
        let from = if last == 0 {
            source
        } else {
            path[last - 1].0
        };
        assert(from == path_end(source, shorter));
        assert(hop_exists(edges, from, path[last].0, path[last].1) == (carries(path[last].1)
            && is_hop(edges, from, path[last])));
        if reaches_by(edges, source, path) {
            assert forall|j: int| 0 <= j < last implies carries((#[trigger] shorter[j]).1)
                && is_hop(
                edges,
                if j == 0 {
                    source
                } else {
                    shorter[j - 1].0
                },
                shorter[j],
            ) by {
                assert(carries(path[j].1));
            }
            assert(carries(path[last].1));
        }
        if flow_walk(edges, source, path) {
            assert forall|j: int| 0 <= j < path.len() implies carries((#[trigger] path[j]).1)
                && is_hop(
                edges,
                if j == 0 {
                    source
                } else {
                    path[j - 1].0
                },
                path[j],
            ) by {
                if j < last {
                    assert(carries(shorter[j].1));
                }
            }
        }
    }
}

/// Wherever one symbol reaches another within the hops that are searched, a path is found; it is no
/// longer than any such path, and made of hops of the graph along which one symbol reaches another.
pub proof fn law_a_symbol_that_is_reached_is_found(
    edges: Seq<Seq<(u32, EdgeKind)>>,
    source: int,
    walk: Seq<(int, EdgeKind)>,
)
    requires
        edges_valid(edges),
        0 <= source < edges.len(),
        edges.len() <= FLOW_NODES_MAX,
        reaches_by(edges, source, walk),
        1 <= walk.len() <= FLOW_HOPS_MAX,
        walk.last().0 != source,
    ensures
        match flow_path(edges, source, walk.last().0) {
            Some(path) => reaches_by(edges, source, path) && 1 <= path.len() <= walk.len()
                && path.last().0 == walk.last().0,
            None => false,
        },
{
    let target = walk.last().0;
    lemma_reaches_by(edges, source, walk);
    law_connected_pair_is_found(edges, source, target, walk);
    law_found_path_is_shortest(edges, source, target, walk);
    law_found_path_is_a_flow_path(edges, source, target);
    lemma_reaches_by(edges, source, flow_path(edges, source, target)->0);
}

/// A path is never made up: whatever is found starts at the source, ends at the target, and each of
/// its hops is one of the graph along which one symbol reaches another.
pub proof fn law_a_path_is_never_made_up(
    edges: Seq<Seq<(u32, EdgeKind)>>,
    source: int,
    target: int,
)
    requires
        edges_valid(edges),
        0 <= source < edges.len(),
    ensures
        match flow_path(edges, source, target) {
            Some(path) => reaches_by(edges, source, path) && 1 <= path.len() <= FLOW_HOPS_MAX
                && path.last().0 == target,
            None => true,
        },
{
    law_found_path_is_a_flow_path(edges, source, target);
    if flow_path(edges, source, target) is Some {
        lemma_reaches_by(edges, source, flow_path(edges, source, target)->0);
    }
}

/// A symbol is a member of another where its qualified name is the other's, a dot, and one more
/// name.
pub proof fn law_a_member_is_named_behind_its_owner(outer: Seq<char>, inner: Seq<char>)
    ensures
        nests_within_spec(outer, inner) <==> outer.len() > 0 && exists|name: Seq<char>|
            !name.contains('.') && inner == #[trigger] (outer + seq!['.'] + name),
{
    reveal_strlit(".");
    assert("."@ =~= seq!['.']);
    if nests_within_spec(outer, inner) {
        let name = inner.skip(outer.len() as int + 1);
        assert(outer == inner.subrange(0, outer.len() as int));
        assert(inner =~= outer + seq!['.'] + name);
        if name.contains('.') {
            let k = choose|k: int| 0 <= k < name.len() && name[k] == '.';
            assert(name.subrange(k, k + 1) =~= "."@);
            assert(occurs_at(name, "."@, k));
        }
    }
    if outer.len() > 0 && exists|name: Seq<char>|
        !name.contains('.') && inner == #[trigger] (outer + seq!['.'] + name) {
        let name = choose|name: Seq<char>|
            !name.contains('.') && inner == #[trigger] (outer + seq!['.'] + name);
        assert(inner.skip(outer.len() as int + 1) =~= name);
        assert(outer =~= inner.subrange(0, outer.len() as int));
        if occurs(name, "."@) {
            let k = choose|k: int| occurs_at(name, "."@, k);
            assert(name.subrange(k, k + 1)[0] == name[k]);
            assert(name.contains('.'));
        }
    }
}

/// A list of flows has each that matches, once, in the order given: those whose name or entry kind
/// holds the pattern, or all where there is none.
pub proof fn law_every_matching_flow_is_listed(
    flows: Seq<FlowRow>,
    needle: Option<Seq<char>>,
    count: int,
    at: int,
)
    requires
        0 <= count <= flows.len(),
    ensures
        matching(flows, needle, count).contains(at) <==> 0 <= at < count && (needle is None
            || occurs(lowercased(flows[at].name@), needle->0) || occurs(
            lowercased(flows[at].entry_kind@),
            needle->0,
        )),
        forall|a: int, b: int|
            0 <= a < b < matching(flows, needle, count).len() ==> #[trigger] matching(
                flows,
                needle,
                count,
            )[a] < #[trigger] matching(flows, needle, count)[b],
        forall|a: int|
            0 <= a < matching(flows, needle, count).len() ==> #[trigger] matching(
                flows,
                needle,
                count,
            )[a] < count,
    decreases count,
{
    let listed = matching(flows, needle, count);
    if count <= 0 {
        assert(!listed.contains(at));
    } else {
        law_every_matching_flow_is_listed(flows, needle, count - 1, at);
        let before = matching(flows, needle, count - 1);
        if before.contains(at) {
            let k = choose|k: int| 0 <= k < before.len() && before[k] == at;
            assert(listed[k] == at);
        }
        if at == count - 1 && flow_matches(flows[at], needle) {
            assert(listed[listed.len() - 1] == at);
        }
        if listed.contains(at) && !before.contains(at) {
            let k = choose|k: int| 0 <= k < listed.len() && listed[k] == at;
            if k < before.len() {
                assert(before[k] == at);
            }
        }
    }
}

/// Some group holds this seed under its name.
pub open spec fn is_endpoint(
    groups: Seq<(Seq<char>, Seq<usize>)>,
    name: Seq<char>,
    seed: usize,
) -> bool {
    exists|g: int| 0 <= g < groups.len() && (#[trigger] groups[g]).0 == name && groups[g].1.contains(
        seed,
    )
}

/// Every seed that the query names is an endpoint under its name, as long as there are no more of
/// them than may be; and an endpoint is always a seed that the query names.
pub proof fn law_every_named_seed_is_an_endpoint(
    nodes: Seq<Node>,
    tokens: Seq<Seq<char>>,
    seeds: Seq<usize>,
    count: int,
    name: Seq<char>,
    seed: usize,
)
    requires
        0 <= count <= seeds.len(),
    ensures
        ({
            let groups = endpoints_upto(nodes, tokens, seeds, count);
            let named = tokens.contains(name) && lowercased(nodes[seed as int].name@) == name
                && exists|k: int| 0 <= k < count && #[trigger] seeds[k] == seed;
            &&& is_endpoint(groups, name, seed) ==> named
            &&& named && count <= FLOW_ENDPOINTS_MAX && count <= FLOW_CANDIDATES_MAX ==> is_endpoint(
                groups,
                name,
                seed,
            )
            &&& groups.len() <= count
            &&& forall|g: int| 0 <= g < groups.len() ==> (#[trigger] groups[g]).1.len() <= count
        }),
    decreases count,
{
    let groups = endpoints_upto(nodes, tokens, seeds, count);
    if count > 0 {
        law_every_named_seed_is_an_endpoint(nodes, tokens, seeds, count - 1, name, seed);
        let before = endpoints_upto(nodes, tokens, seeds, count - 1);
        let last = seeds[count - 1];
        let called = lowercased(nodes[last as int].name@);
        lemma_endpoint_at(before, called, 0);
        if is_endpoint(before, name, seed) {
            let g = choose|g: int|
                0 <= g < before.len() && (#[trigger] before[g]).0 == name && before[g].1.contains(
                    seed,
                );
            let k = choose|k: int| 0 <= k < before[g].1.len() && before[g].1[k] == seed;
            assert(groups[g].0 == name && groups[g].1[k] == seed);
        }
        if tokens.contains(called) && last == seed && called == name && count <= FLOW_ENDPOINTS_MAX
            && count <= FLOW_CANDIDATES_MAX {
            match endpoint_at(before, called, 0) {
                Some(at) => {
                    assert(before[at].1.len() <= count - 1);
                    assert(groups[at].1[groups[at].1.len() - 1] == seed);
                },
                None => {
                    let at = groups.len() - 1;
                    assert(groups[at].1[0] == seed);
                },
            }
        }
        if is_endpoint(groups, name, seed) && !is_endpoint(before, name, seed) {
            let g = choose|g: int|
                0 <= g < groups.len() && (#[trigger] groups[g]).0 == name && groups[g].1.contains(
                    seed,
                );
            let k = choose|k: int| 0 <= k < groups[g].1.len() && groups[g].1[k] == seed;
            if g < before.len() {
                assert(before[g].0 == name);
                if k < before[g].1.len() {
                    assert(before[g].1[k] == seed);
                }
            }
            assert(seeds[count - 1] == seed);
        }
    }
}

/// An owner and its member are told from either side, and no two others are taken for such.
pub proof fn law_owner_and_member_are_told_from_either_side(owner: Node, member: Node, name: Seq<char>)
    ensures
        owner_member(owner, member) == owner_member(member, owner),
        member.qualified_name@ == owner.qualified_name@ + "."@ + name && owner.qualified_name@.len()
            > 0 && !name.contains('.') ==> owner_member(owner, member) && owner_member(
            member,
            owner,
        ),
        owner_member(owner, member) ==> owner.qualified_name@.is_prefix_of(member.qualified_name@)
            || member.qualified_name@.is_prefix_of(owner.qualified_name@),
        owner.qualified_name@ == member.qualified_name@ ==> !owner_member(owner, member),
{
    reveal_strlit(".");
    let (outer, inner) = (owner.qualified_name@, member.qualified_name@);
    if inner == outer + "."@ + name && outer.len() > 0 && !name.contains('.') {
        assert(outer =~= inner.subrange(0, outer.len() as int));
        assert(inner.skip(outer.len() as int + 1) =~= name);
        if occurs(name, "."@) {
            let at = choose|at: int| occurs_at(name, "."@, at);
            assert(name.subrange(at, at + 1)[0] == name[at]);
            assert(name.contains('.'));
        }
    }
}

/// What tracing one pair adds to what was found before.
pub open spec fn traced_on(
    nodes: Seq<Node>,
    edges: Seq<Seq<(u32, EdgeKind)>>,
    groups: Seq<(Seq<char>, Seq<usize>)>,
    first: int,
    second: int,
    traced: Traced,
) -> Traced {
    match connect_from(nodes, edges, groups[first].1, groups[second].1, 0, 0, false) {
        PairView::Connected(source, path) => Traced {
            text: traced.text + flow_path_text(nodes, source, path),
            rendered: traced.rendered + 1,
            asked: traced.asked,
        },
        PairView::Unconnected => Traced {
            text: traced.text,
            rendered: traced.rendered,
            asked: traced.asked.push((first, second)),
        },
        PairView::Containment => traced,
    }
}

/// Nothing that was found is lost from one to the other.
pub open spec fn nothing_lost(before: Traced, after: Traced) -> bool {
    &&& before.rendered <= after.rendered
    &&& before.text.len() <= after.text.len()
    &&& after.text.take(before.text.len() as int) == before.text
    &&& before.asked.len() <= after.asked.len()
    &&& after.asked.take(before.asked.len() as int) == before.asked
}

proof fn lemma_traced_grows(
    nodes: Seq<Node>,
    edges: Seq<Seq<(u32, EdgeKind)>>,
    groups: Seq<(Seq<char>, Seq<usize>)>,
    first: int,
    second: int,
    traced: Traced,
)
    requires
        0 <= first,
    ensures
        nothing_lost(traced, trace_pairs(nodes, edges, groups, first, second, traced)),
    decreases groups.len() - first, groups.len() - second,
{
    let after = trace_pairs(nodes, edges, groups, first, second, traced);
    if first >= groups.len() {
        assert(traced.text.take(traced.text.len() as int) =~= traced.text);
        assert(traced.asked.take(traced.asked.len() as int) =~= traced.asked);
    } else if second >= groups.len() || traced.rendered >= FLOW_PATHS_MAX {
        lemma_traced_grows(nodes, edges, groups, first + 1, first + 2, traced);
    } else {
        let next = traced_on(nodes, edges, groups, first, second, traced);
        lemma_traced_grows(nodes, edges, groups, first, second + 1, next);
        assert(next.text.take(traced.text.len() as int) =~= traced.text);
        assert(next.asked.take(traced.asked.len() as int) =~= traced.asked);
        assert(after.text.take(traced.text.len() as int) =~= after.text.take(
            next.text.len() as int,
        ).take(traced.text.len() as int));
        assert(after.asked.take(traced.asked.len() as int) =~= after.asked.take(
            next.asked.len() as int,
        ).take(traced.asked.len() as int));
    }
}

/// Every two names of a query are tried against each other, until there are as many paths as may be
/// shown: a path between them is written out, and where there is none they are remembered as asked.
pub proof fn law_every_two_names_are_traced(
    nodes: Seq<Node>,
    edges: Seq<Seq<(u32, EdgeKind)>>,
    groups: Seq<(Seq<char>, Seq<usize>)>,
    first: int,
    second: int,
    traced: Traced,
    a: int,
    b: int,
)
    requires
        0 <= first <= a < b < groups.len(),
        first == a ==> second <= b,
    ensures
        ({
            let after = trace_pairs(nodes, edges, groups, first, second, traced);
            after.rendered >= FLOW_PATHS_MAX || match connect_from(
                nodes,
                edges,
                groups[a].1,
                groups[b].1,
                0,
                0,
                false,
            ) {
                PairView::Connected(source, path) => occurs(
                    after.text,
                    flow_path_text(nodes, source, path),
                ),
                PairView::Unconnected => after.asked.contains((a, b)),
                PairView::Containment => true,
            }
        }),
    decreases groups.len() - first, groups.len() - second,
{
    let after = trace_pairs(nodes, edges, groups, first, second, traced);
    lemma_traced_grows(nodes, edges, groups, first, second, traced);
    if traced.rendered >= FLOW_PATHS_MAX {
    } else if second >= groups.len() {
        law_every_two_names_are_traced(nodes, edges, groups, first + 1, first + 2, traced, a, b);
    } else {
        let next = traced_on(nodes, edges, groups, first, second, traced);
        lemma_traced_grows(nodes, edges, groups, first, second + 1, next);
        if first == a && second == b {
            match connect_from(nodes, edges, groups[a].1, groups[b].1, 0, 0, false) {
                PairView::Connected(source, path) => {
                    let shown = flow_path_text(nodes, source, path);
                    let at = traced.text.len() as int;
                    assert(next.text.subrange(at, at + shown.len()) =~= shown);
                    assert(after.text.subrange(at, at + shown.len()) =~= after.text.take(
                        next.text.len() as int,
                    ).subrange(at, at + shown.len()));
                    assert(occurs_at(after.text, shown, at));
                },
                PairView::Unconnected => {
                    let at = traced.asked.len() as int;
                    assert(next.asked[at] == (a, b));
                    assert(after.asked.take(next.asked.len() as int)[at] == after.asked[at]);
                },
                PairView::Containment => {},
            }
        } else {
            law_every_two_names_are_traced(nodes, edges, groups, first, second + 1, next, a, b);
        }
    }
}

/// The flows shown are brought together by project, none lost: each stands once, and between two of
/// one project stand only flows of that project.
pub proof fn law_flows_are_shown_project_by_project(
    flows: Seq<FlowRow>,
    shown: Seq<int>,
    at: int,
    a: int,
    b: int,
    c: int,
)
    requires
        0 <= at < shown.len(),
        0 <= a < b < c < shown.len(),
    ensures
        ({
            let order = by_project(flows, shown);
            &&& order.len() == shown.len()
            &&& order.contains(shown[at])
            &&& flows[order[a]].project_id@ == flows[order[c]].project_id@
                ==> flows[order[b]].project_id@ == flows[order[a]].project_id@
        }),
{
    let names = shown.map_values(|at: int| flows[at].project_id@);
    law_grouping_brings_equals_together(names);
    lemma_grouped_places(names);
    let places = grouped_order(names);
    let order = by_project(flows, shown);
    assert(places.contains(at));
    let k = choose|k: int| 0 <= k < places.len() && places[k] == at;
    assert(order[k] == shown[at]);
    assert(names[places[a]] == flows[order[a]].project_id@);
    assert(names[places[b]] == flows[order[b]].project_id@);
    assert(names[places[c]] == flows[order[c]].project_id@);
}

/// An empty pattern asks for nothing in particular, and any other is sought whatever its case.
pub proof fn law_an_empty_pattern_asks_for_nothing(pattern: &str)
    ensures
        needle_of(None) is None,
        pattern@.len() == 0 <==> needle_of(Some(pattern)) is None,
        pattern@.len() > 0 ==> needle_of(Some(pattern)) == Some(lowercased(pattern@)),
{
}

} // verus!
