//! What one session holds of the graph, and how its tools put a response together.
use crate::chars::{cat2, cat3, cat5, contains, copy, occurs, quote, quoted, views};
use crate::git::{check_revision, refusal};
use crate::graph::{EdgeKind, Node, NodeKind};
use crate::hints::HintFacts;
use crate::keys::{last_at, lemma_last_at, PlaceIndex};
use crate::limits::FLOW_HOPS_MAX;
use crate::numbers::{decimal_spec, decimal_u32};
use crate::order::{
    comes_before, indices, key_less, key_view, keys_view, lemma_sorted_order, lemma_text_transitive,
    side_of_texts, sort_order, sorted_order, sorts_range, text_less, Part, PartView, Side,
};
use crate::rank::{query_names, query_names_spec};
use crate::recency::SESSION_FILES_MAX;
use crate::render::{
    file_path_in_line, first_name_from, first_named_symbol, path_in_line_spec, with_hint,
    with_hint_spec,
};
use crate::tools::flows::{
    edge_lists, edges_valid, flow_path, flow_path_text, flow_walk, law_found_path_is_a_flow_path,
    lemma_path_valid, path_end, path_valid, path_view, render_flow_path, shortest_flow_path,
};
use vstd::prelude::*;

verus! {

/// The reply every tool returns when the server has no database: a clear "nothing here" message
/// instead of a hard failure to connect.
pub const NO_INDEX_MESSAGE: &'static str = "no constellation index for this working directory (not an indexed Django project). Run `constellation init` here, or open a project that has a .constellation/index.db.";

// ---------------------------------------------------------------------------
// The graph in memory

/// An edge of the graph: the ids of its ends, and its kind.
pub struct GraphEdge {
    pub source: String,
    pub target: String,
    pub kind: EdgeKind,
}

/// The ids of the nodes.
pub open spec fn graph_ids(nodes: Seq<Node>) -> Seq<Seq<char>> {
    nodes.map_values(|node: Node| node.id@)
}

/// The two nodes an edge joins, where the graph holds both.
pub open spec fn edge_ends(nodes: Seq<Node>, edge: GraphEdge) -> Option<(int, int)> {
    let ids = graph_ids(nodes);
    match (
        last_at(ids, edge.source@, ids.len() as int),
        last_at(ids, edge.target@, ids.len() as int),
    ) {
        (Some(from), Some(to)) => Some((from, to)),
        _ => None,
    }
}

/// The neighbours of a node over the first `count` edges, either way.
pub open spec fn neighbours(nodes: Seq<Node>, edges: Seq<GraphEdge>, node: int, count: int) -> Seq<
    u32,
>
    decreases count,
{
    if count <= 0 {
        Seq::empty()
    } else {
        let before = neighbours(nodes, edges, node, count - 1);
        match edge_ends(nodes, edges[count - 1]) {
            None => before,
            Some((from, to)) => {
                let onward = if from == node {
                    before.push(to as u32)
                } else {
                    before
                };
                if to == node {
                    onward.push(from as u32)
                } else {
                    onward
                }
            },
        }
    }
}

/// The edges that lead from a node, of the first `count`.
pub open spec fn leading_from(
    nodes: Seq<Node>,
    edges: Seq<GraphEdge>,
    node: int,
    count: int,
) -> Seq<(u32, EdgeKind)>
    decreases count,
{
    if count <= 0 {
        Seq::empty()
    } else {
        let before = leading_from(nodes, edges, node, count - 1);
        match edge_ends(nodes, edges[count - 1]) {
            None => before,
            Some((from, to)) => if from == node {
                before.push((to as u32, edges[count - 1].kind))
            } else {
                before
            },
        }
    }
}

/// The graph as explore reads it: the node list, the undirected adjacency that ranking traverses,
/// and the directed edges that flow tracing follows.
pub struct ExploreCache {
    pub generation: u64,
    pub nodes: Vec<Node>,
    /// The node positions ordered by node id, four bytes a node.
    pub by_id: Vec<u32>,
    pub adjacency: Vec<Vec<u32>>,
    pub out_edges: Vec<Vec<(u32, EdgeKind)>>,
}

/// The nodes' ids as keys of an order.
pub open spec fn id_keys(nodes: Seq<Node>) -> Seq<Seq<PartView>> {
    nodes.map_values(|node: Node| seq![PartView::Text(node.id@)])
}

/// Positions as integers.
pub open spec fn narrow_indices(positions: Seq<u32>) -> Seq<int> {
    positions.map_values(|position: u32| position as int)
}

impl ExploreCache {
    /// The id order lists every node once, and every edge leads to a node.
    pub open spec fn wf(self) -> bool {
        &&& narrow_indices(self.by_id@) == sorted_order(id_keys(self.nodes@))
        &&& self.adjacency@.len() == self.nodes@.len()
        &&& self.out_edges@.len() == self.nodes@.len()
        &&& edges_valid(edge_lists(self.out_edges@))
    }

    /// The cache of a graph: each edge whose two ends are known joins them.
    pub fn build(nodes: Vec<Node>, edges: &[GraphEdge], generation: u64) -> (cache: ExploreCache)
        requires
            nodes@.len() <= u32::MAX,
        ensures
            cache.wf(),
            cache.generation == generation,
            cache.nodes@ == nodes@,
            cache.adjacency@.len() == nodes@.len(),
            cache.out_edges@.len() == nodes@.len(),
            forall|i: int|
                0 <= i < nodes@.len() ==> (#[trigger] cache.adjacency@[i])@ == neighbours(
                    nodes@,
                    edges@,
                    i,
                    edges@.len() as int,
                ),
            forall|i: int|
                0 <= i < nodes@.len() ==> (#[trigger] cache.out_edges@[i])@ == leading_from(
                    nodes@,
                    edges@,
                    i,
                    edges@.len() as int,
                ),
    {
        let ghost ids = graph_ids(nodes@);
        let count: usize = nodes.len();
        let mut places = PlaceIndex::new();
        let mut adjacency: Vec<Vec<u32>> = Vec::new();
        let mut out_edges: Vec<Vec<(u32, EdgeKind)>> = Vec::new();
        assert(places@ =~= ids.take(0));
        for i in 0..count
            invariant
                count == nodes@.len(),
                ids == graph_ids(nodes@),
                places.wf(),
                places@ == ids.take(i as int),
                adjacency@.len() == i,
                out_edges@.len() == i,
                forall|k: int| 0 <= k < i ==> (#[trigger] adjacency@[k])@ == Seq::<u32>::empty(),
                forall|k: int|
                    0 <= k < i ==> (#[trigger] out_edges@[k])@ == Seq::<(u32, EdgeKind)>::empty(),
        {
            places.push(nodes[i].id.as_str());
            adjacency.push(Vec::new());
            out_edges.push(Vec::new());
            assert(ids.take(i + 1) =~= ids.take(i as int).push(ids[i as int]));
        }
        assert(ids.take(count as int) =~= ids);
        for e in 0..edges.len()
            invariant
                count == nodes@.len(),
                count <= u32::MAX,
                ids == graph_ids(nodes@),
                places.wf(),
                places@ == ids,
                adjacency@.len() == count,
                out_edges@.len() == count,
                forall|k: int|
                    0 <= k < count ==> (#[trigger] adjacency@[k])@ == neighbours(
                        nodes@,
                        edges@,
                        k,
                        e as int,
                    ),
                forall|k: int|
                    0 <= k < count ==> (#[trigger] out_edges@[k])@ == leading_from(
                        nodes@,
                        edges@,
                        k,
                        e as int,
                    ),
        {
            let edge = &edges[e];
            let ends = (places.get(edge.source.as_str()), places.get(edge.target.as_str()));
            if let (Some(from), Some(to)) = ends {
                join_ends(&mut adjacency, &mut out_edges, from, to, edge.kind);
            }
        }
        let by_id = order_by_id(nodes.as_slice());
        let cache = ExploreCache { generation, nodes, by_id, adjacency, out_edges };
        proof {
            let lists = edge_lists(cache.out_edges@);
            assert forall|i: int, k: int|
                0 <= i < lists.len() && 0 <= k < lists[i].len() implies (
            #[trigger] lists[i][k]).0 < lists.len() by {
                assert(lists[i] == cache.out_edges@[i]@);
                lemma_leads_to_a_node(cache.nodes@, edges@, i, edges@.len() as int);
            }
        }
        cache
    }

    /// The position of the node with this id, or `None` when the cache does not hold it.
    pub fn position(&self, id: &str) -> (found: Option<usize>)
        requires
            self.wf(),
        ensures
            match found {
                Some(at) => at < self.nodes@.len() && self.nodes@[at as int].id@ == id@,
                None => forall|k: int|
                    0 <= k < self.nodes@.len() ==> (#[trigger] self.nodes@[k]).id@ != id@,
            },
    {
        let ghost keys = id_keys(self.nodes@);
        let ghost order = narrow_indices(self.by_id@);
        proof {
            lemma_sorted_order(keys);
        }
        assert(order.len() == self.by_id@.len());
        let mut low: usize = 0;
        let mut high: usize = self.by_id.len();
        while low < high
            invariant
                order == narrow_indices(self.by_id@),
                order.len() == self.by_id@.len(),
                keys == id_keys(self.nodes@),
                sorts_range(keys, order, 0, keys.len() as int),
                low <= high <= self.by_id@.len(),
                forall|k: int|
                    0 <= k < low ==> text_less(
                        self.nodes@[(#[trigger] self.by_id@[k]) as int].id@,
                        id@,
                    ),
                forall|k: int|
                    high <= k < self.by_id@.len() ==> text_less(
                        id@,
                        self.nodes@[(#[trigger] self.by_id@[k]) as int].id@,
                    ),
            decreases high - low,
        {
            let mid: usize = low + (high - low) / 2;
            assert(order[mid as int] == self.by_id@[mid as int]);
            let at: usize = self.by_id[mid] as usize;
            match side_of_texts(self.nodes[at].id.as_str(), id) {
                Side::Same => {
                    return Some(at);
                },
                Side::Below => {
                    proof {
                        assert forall|k: int| 0 <= k < mid + 1 implies text_less(
                            self.nodes@[(#[trigger] self.by_id@[k]) as int].id@,
                            id@,
                        ) by {
                            if k < mid {
                                lemma_id_order(self.nodes@, order, k, mid as int);
                                if self.nodes@[order[k]].id@ != self.nodes@[at as int].id@ {
                                    lemma_text_transitive(
                                        self.nodes@[order[k]].id@,
                                        self.nodes@[at as int].id@,
                                        id@,
                                    );
                                }
                            }
                        }
                    }
                    low = mid + 1;
                },
                Side::Above => {
                    proof {
                        assert forall|k: int| mid <= k < self.by_id@.len() implies text_less(
                            id@,
                            self.nodes@[(#[trigger] self.by_id@[k]) as int].id@,
                        ) by {
                            if k > mid {
                                lemma_id_order(self.nodes@, order, mid as int, k);
                                if self.nodes@[order[k]].id@ != self.nodes@[at as int].id@ {
                                    lemma_text_transitive(
                                        id@,
                                        self.nodes@[at as int].id@,
                                        self.nodes@[order[k]].id@,
                                    );
                                }
                            }
                        }
                    }
                    high = mid;
                },
            }
        }
        proof {
            assert forall|k: int| 0 <= k < self.nodes@.len() implies (
            #[trigger] self.nodes@[k]).id@ != id@ by {
                assert(order.contains(k));
                let j = choose|j: int| 0 <= j < order.len() && order[j] == k;
                assert(self.by_id@[j] == k);
                crate::order::lemma_text_order(self.nodes@[k].id@, id@);
            }
        }
        None
    }

    /// The cached positions of the given node ids, dropping any the cache does not hold.
    pub fn positions(&self, ids: &[String]) -> (positions: Vec<usize>)
        requires
            self.wf(),
        ensures
            positions_match(self.nodes@, views(ids@), positions@),
    {
        let ghost texts = views(ids@);
        assert(texts.len() == ids@.len());
        let mut positions: Vec<usize> = Vec::new();
        let ghost mut kept: Seq<int> = Seq::empty();
        for i in 0..ids.len()
            invariant
                self.wf(),
                texts == views(ids@),
                texts.len() == ids@.len(),
                kept == held_upto(self.nodes@, texts, i as int),
                positions@.len() == kept.len(),
                forall|k: int|
                    0 <= k < positions@.len() ==> (#[trigger] positions@[k]) < self.nodes@.len()
                        && self.nodes@[positions@[k] as int].id@ == texts[kept[k]],
        {
            assert(texts[i as int] == ids@[i as int]@);
            match self.position(ids[i].as_str()) {
                Some(at) => {
                    positions.push(at);
                    assert(self.nodes@[at as int].id@ == texts[i as int]);
                    assert(graph_holds(self.nodes@, texts[i as int]));
                    proof {
                        kept = kept.push(i as int);
                    }
                },
                None => {},
            }
        }
        positions
    }
}

/// Some node has this id.
pub open spec fn graph_holds(nodes: Seq<Node>, id: Seq<char>) -> bool {
    exists|k: int| 0 <= k < nodes.len() && (#[trigger] nodes[k]).id@ == id
}

/// The places, of the first `count` ids, of those that some node has.
pub open spec fn held_upto(nodes: Seq<Node>, ids: Seq<Seq<char>>, count: int) -> Seq<int>
    decreases count,
{
    if count <= 0 {
        Seq::empty()
    } else if graph_holds(nodes, ids[count - 1]) {
        held_upto(nodes, ids, count - 1).push(count - 1)
    } else {
        held_upto(nodes, ids, count - 1)
    }
}

/// The positions are those of nodes with the ids that the graph holds, in order.
pub open spec fn positions_match(
    nodes: Seq<Node>,
    ids: Seq<Seq<char>>,
    positions: Seq<usize>,
) -> bool {
    let held = held_upto(nodes, ids, ids.len() as int);
    &&& positions.len() == held.len()
    &&& forall|k: int|
        0 <= k < positions.len() ==> (#[trigger] positions[k]) < nodes.len()
            && nodes[positions[k] as int].id@ == ids[held[k]]
}

proof fn lemma_id_order(nodes: Seq<Node>, order: Seq<int>, earlier: int, later: int)
    requires
        sorts_range(id_keys(nodes), order, 0, nodes.len() as int),
        0 <= earlier < later < order.len(),
    ensures
        0 <= order[earlier] < nodes.len(),
        0 <= order[later] < nodes.len(),
        nodes[order[earlier]].id@ == nodes[order[later]].id@ || text_less(
            nodes[order[earlier]].id@,
            nodes[order[later]].id@,
        ),
{
    let keys = id_keys(nodes);
    assert(comes_before(keys, order[earlier], order[later]));
    let a = keys[order[earlier]];
    let b = keys[order[later]];
    assert(a[0] == PartView::Text(nodes[order[earlier]].id@));
    assert(b[0] == PartView::Text(nodes[order[later]].id@));
    if key_less(a, b) && a[0] == b[0] {
        assert(a[0] == b[0]);
    }
}

proof fn lemma_leads_to_a_node(nodes: Seq<Node>, edges: Seq<GraphEdge>, node: int, count: int)
    requires
        0 <= count <= edges.len(),
        nodes.len() <= u32::MAX,
    ensures
        forall|k: int|
            0 <= k < leading_from(nodes, edges, node, count).len() ==> (
            #[trigger] leading_from(nodes, edges, node, count)[k]).0 < nodes.len(),
    decreases count,
{
    if count > 0 {
        lemma_leads_to_a_node(nodes, edges, node, count - 1);
        let ids = graph_ids(nodes);
        lemma_last_at(ids, edges[count - 1].target@, ids.len() as int);
        let before = leading_from(nodes, edges, node, count - 1);
        let after = leading_from(nodes, edges, node, count);
        assert forall|k: int| 0 <= k < after.len() implies (#[trigger] after[k]).0 < nodes.len() by {
            if k < before.len() {
                assert(after[k] == before[k]);
            }
        }
    }
}

fn join_ends(
    adjacency: &mut Vec<Vec<u32>>,
    out_edges: &mut Vec<Vec<(u32, EdgeKind)>>,
    from: usize,
    to: usize,
    kind: EdgeKind,
)
    requires
        from < old(adjacency)@.len(),
        to < old(adjacency)@.len(),
        old(adjacency)@.len() == old(out_edges)@.len(),
        old(adjacency)@.len() <= u32::MAX,
    ensures
        final(adjacency)@.len() == old(adjacency)@.len(),
        final(out_edges)@.len() == old(out_edges)@.len(),
        forall|k: int|
            0 <= k < old(adjacency)@.len() ==> (#[trigger] final(adjacency)@[k])@ == ({
                let onward = if from == k {
                    old(adjacency)@[k]@.push(to as u32)
                } else {
                    old(adjacency)@[k]@
                };
                if to == k {
                    onward.push(from as u32)
                } else {
                    onward
                }
            }),
        forall|k: int|
            0 <= k < old(out_edges)@.len() ==> (#[trigger] final(out_edges)@[k])@ == (if from == k {
                old(out_edges)@[k]@.push((to as u32, kind))
            } else {
                old(out_edges)@[k]@
            }),
{
    push_at(adjacency, from, to as u32);
    push_at(adjacency, to, from as u32);
    push_at(out_edges, from, (to as u32, kind));
}

fn push_at<T>(lists: &mut Vec<Vec<T>>, at: usize, item: T)
    requires
        at < old(lists)@.len(),
    ensures
        final(lists)@.len() == old(lists)@.len(),
        forall|k: int|
            0 <= k < old(lists)@.len() ==> (#[trigger] final(lists)@[k])@ == (if at == k {
                old(lists)@[k]@.push(item)
            } else {
                old(lists)@[k]@
            }),
{
    let mut list: Vec<T> = Vec::new();
    std::mem::swap(&mut list, &mut lists[at]);
    list.push(item);
    lists.set(at, list);
}

fn order_by_id(nodes: &[Node]) -> (order: Vec<u32>)
    requires
        nodes@.len() <= u32::MAX,
    ensures
        narrow_indices(order@) == sorted_order(id_keys(nodes@)),
{
    let ghost wanted = id_keys(nodes@);
    let mut keys: Vec<Vec<Part>> = Vec::new();
    for i in 0..nodes.len()
        invariant
            wanted == id_keys(nodes@),
            keys_view(keys@) == wanted.take(i as int),
    {
        let ghost before = keys@;
        let mut key: Vec<Part> = Vec::new();
        key.push(Part::Text(nodes[i].id.clone()));
        assert(key_view(key) =~= wanted[i as int]);
        keys.push(key);
        assert(keys_view(keys@) =~= keys_view(before).push(wanted[i as int]));
        assert(wanted.take(i + 1) =~= wanted.take(i as int).push(wanted[i as int]));
    }
    assert(wanted.take(nodes@.len() as int) =~= wanted);
    assert(keys@.len() == keys_view(keys@).len());
    let wide = sort_order(&keys);
    let mut order: Vec<u32> = Vec::new();
    for i in 0..wide.len()
        invariant
            nodes@.len() <= u32::MAX,
            forall|k: int| 0 <= k < wide@.len() ==> #[trigger] wide@[k] < nodes@.len(),
            narrow_indices(order@) == indices(wide@).take(i as int),
    {
        let ghost before = order@;
        assert(wide@[i as int] < nodes@.len());
        assert(indices(wide@)[i as int] == wide@[i as int]);
        order.push(wide[i] as u32);
        assert(narrow_indices(order@) =~= narrow_indices(before).push(wide@[i as int] as int));
        assert(indices(wide@).take(i + 1) =~= indices(wide@).take(i as int).push(
            wide@[i as int] as int,
        ));
    }
    assert(indices(wide@).take(wide@.len() as int) =~= indices(wide@));
    order
}

// ---------------------------------------------------------------------------
// Paths between symbols

/// A traced flow path: where it starts, its hops, and whether it runs from the caller's `to` back
/// to their `from`.
pub struct TracedPath {
    pub reversed: bool,
    pub source: usize,
    pub hops: Vec<(usize, EdgeKind)>,
}

/// A traced path as a value.
#[verifier::ext_equal]
pub struct TraceView {
    pub reversed: bool,
    pub source: int,
    pub hops: Seq<(int, EdgeKind)>,
}

/// A traced path, where there is one.
pub open spec fn trace_view(traced: Option<TracedPath>) -> Option<TraceView> {
    match traced {
        Some(traced) => Some(
            TraceView {
                reversed: traced.reversed,
                source: traced.source as int,
                hops: path_view(traced.hops@),
            },
        ),
        None => None,
    }
}

/// The path between one pair of nodes in the direction asked.
pub open spec fn trace_pair(
    edges: Seq<Seq<(u32, EdgeKind)>>,
    source: int,
    target: int,
    reversed: bool,
) -> Option<TraceView> {
    let (start, end) = if reversed {
        (target, source)
    } else {
        (source, target)
    };
    match flow_path(edges, start, end) {
        Some(hops) => Some(TraceView { reversed, source: start, hops }),
        None => None,
    }
}

/// The first path between a node and any of the targets from `at` on, in the direction asked.
pub open spec fn trace_to_any(
    edges: Seq<Seq<(u32, EdgeKind)>>,
    source: int,
    targets: Seq<usize>,
    reversed: bool,
    at: int,
) -> Option<TraceView>
    decreases targets.len() - at,
{
    if at < 0 || at >= targets.len() {
        None
    } else {
        match trace_pair(edges, source, targets[at] as int, reversed) {
            Some(found) => Some(found),
            None => trace_to_any(edges, source, targets, reversed, at + 1),
        }
    }
}

/// The first path between any of the sources from `at` on and any of the targets, in the direction
/// asked.
pub open spec fn trace_one_way(
    edges: Seq<Seq<(u32, EdgeKind)>>,
    sources: Seq<usize>,
    targets: Seq<usize>,
    reversed: bool,
    at: int,
) -> Option<TraceView>
    decreases sources.len() - at,
{
    if at < 0 || at >= sources.len() {
        None
    } else {
        match trace_to_any(edges, sources[at] as int, targets, reversed, 0) {
            Some(found) => Some(found),
            None => trace_one_way(edges, sources, targets, reversed, at + 1),
        }
    }
}

/// The first path between any pair of endpoints, forwards for preference and backwards otherwise.
pub open spec fn trace_spec(
    edges: Seq<Seq<(u32, EdgeKind)>>,
    sources: Seq<usize>,
    targets: Seq<usize>,
) -> Option<TraceView> {
    match trace_one_way(edges, sources, targets, false, 0) {
        Some(found) => Some(found),
        None => trace_one_way(edges, sources, targets, true, 0),
    }
}

/// Every position is that of a node.
pub open spec fn all_below(positions: Seq<usize>, count: int) -> bool {
    forall|i: int| 0 <= i < positions.len() ==> #[trigger] positions[i] < count
}

fn trace_direction(
    cache: &ExploreCache,
    from_positions: &[usize],
    to_positions: &[usize],
    reversed: bool,
) -> (traced: Option<TracedPath>)
    requires
        cache.wf(),
        all_below(from_positions@, cache.nodes@.len() as int),
        all_below(to_positions@, cache.nodes@.len() as int),
    ensures
        trace_view(traced) == trace_one_way(
            edge_lists(cache.out_edges@),
            from_positions@,
            to_positions@,
            reversed,
            0,
        ),
        match traced {
            Some(traced) => traced.source < cache.nodes@.len() && path_valid(
                cache.nodes@,
                path_view(traced.hops@),
            ),
            None => true,
        },
{
    let ghost edges = edge_lists(cache.out_edges@);
    assert(edges.len() == cache.out_edges@.len());
    for i in 0..from_positions.len()
        invariant
            cache.wf(),
            all_below(from_positions@, cache.nodes@.len() as int),
            all_below(to_positions@, cache.nodes@.len() as int),
            edges == edge_lists(cache.out_edges@),
            edges.len() == cache.out_edges@.len(),
            trace_one_way(edges, from_positions@, to_positions@, reversed, 0) == trace_one_way(
                edges,
                from_positions@,
                to_positions@,
                reversed,
                i as int,
            ),
    {
        assert(from_positions@[i as int] < cache.nodes@.len());
        let source: usize = from_positions[i];
        for j in 0..to_positions.len()
            invariant
                cache.wf(),
                source < cache.nodes@.len(),
                i < from_positions@.len(),
                source == from_positions@[i as int],
                all_below(to_positions@, cache.nodes@.len() as int),
                edges == edge_lists(cache.out_edges@),
                edges.len() == cache.out_edges@.len(),
                trace_one_way(edges, from_positions@, to_positions@, reversed, 0) == trace_one_way(
                    edges,
                    from_positions@,
                    to_positions@,
                    reversed,
                    i as int,
                ),
                trace_to_any(edges, source as int, to_positions@, reversed, 0) == trace_to_any(
                    edges,
                    source as int,
                    to_positions@,
                    reversed,
                    j as int,
                ),
        {
            assert(to_positions@[j as int] < cache.nodes@.len());
            let target: usize = to_positions[j];
            let (start, end) = if reversed {
                (target, source)
            } else {
                (source, target)
            };
            proof {
                lemma_path_valid(edges, cache.nodes@, start as int, end as int);
            }
            if let Some(hops) = shortest_flow_path(cache.out_edges.as_slice(), start, end) {
                return Some(TracedPath { reversed, source: start, hops });
            }
        }
    }
    None
}

/// The first flow path found between any pair of endpoints, forwards for preference and backwards
/// otherwise.
pub fn trace_path(
    cache: &ExploreCache,
    from_positions: &[usize],
    to_positions: &[usize],
) -> (traced: Option<TracedPath>)
    requires
        cache.wf(),
        all_below(from_positions@, cache.nodes@.len() as int),
        all_below(to_positions@, cache.nodes@.len() as int),
    ensures
        trace_view(traced) == trace_spec(
            edge_lists(cache.out_edges@),
            from_positions@,
            to_positions@,
        ),
        match traced {
            Some(traced) => traced.source < cache.nodes@.len() && path_valid(
                cache.nodes@,
                path_view(traced.hops@),
            ),
            None => true,
        },
{
    match trace_direction(cache, from_positions, to_positions, false) {
        Some(traced) => Some(traced),
        None => trace_direction(cache, from_positions, to_positions, true),
    }
}

/// A traced path, rendered.
pub open spec fn trace_text(
    nodes: Seq<Node>,
    traced: TraceView,
    from: Seq<char>,
    to: Seq<char>,
) -> Seq<char> {
    (if traced.reversed {
        "# path "@ + to + " -> "@ + from + " (only this direction connects):\n"@
    } else {
        "# path "@ + from + " -> "@ + to + ":\n"@
    }) + flow_path_text(nodes, traced.source, traced.hops)
}

impl TracedPath {
    /// The path rendered. One that runs backwards says so: the answer is real but not the one that
    /// was asked for.
    pub fn render(&self, nodes: &[Node], from: &str, to: &str) -> (text: String)
        requires
            self.source < nodes@.len(),
            path_valid(nodes@, path_view(self.hops@)),
        ensures
            text@ == trace_text(
                nodes@,
                (TraceView {
                    reversed: self.reversed,
                    source: self.source as int,
                    hops: path_view(self.hops@),
                }),
                from@,
                to@,
            ),
    {
        let mut text = if self.reversed {
            cat5("# path ", to, " -> ", from, " (only this direction connects):\n")
        } else {
            cat5("# path ", from, " -> ", to, ":\n")
        };
        text.append(render_flow_path(nodes, self.source, self.hops.as_slice()).as_str());
        text
    }
}

/// Where the two names of a path query stand: how many definitions each has, and the positions of
/// those that the graph holds.
pub struct PathEnds {
    pub from_count: usize,
    pub to_count: usize,
    pub from_positions: Vec<usize>,
    pub to_positions: Vec<usize>,
}

/// The answer to a path query.
pub open spec fn path_text_spec(
    nodes: Seq<Node>,
    edges: Seq<Seq<(u32, EdgeKind)>>,
    ends: PathEnds,
    from: Seq<char>,
    to: Seq<char>,
) -> Seq<char> {
    if ends.from_count == 0 {
        "no symbol named "@ + quoted(from)
    } else if ends.to_count == 0 {
        "no symbol named "@ + quoted(to)
    } else {
        match trace_spec(edges, ends.from_positions@, ends.to_positions@) {
            Some(traced) => trace_text(nodes, traced, from, to),
            None => "no flow path between "@ + quoted(from) + " and "@ + quoted(to) + " within "@
                + decimal_spec(FLOW_HOPS_MAX as nat)
                + " hops (call / route / render / instantiate / inherit / template-inherit edges)"@,
        }
    }
}

/// The shortest flow path between two symbols over the directed graph, searched both ways so "how
/// does X reach Y" finds the link regardless of which endpoint was named first.
pub fn path_text(cache: &ExploreCache, ends: &PathEnds, from: &str, to: &str) -> (text: String)
    requires
        cache.wf(),
        all_below(ends.from_positions@, cache.nodes@.len() as int),
        all_below(ends.to_positions@, cache.nodes@.len() as int),
    ensures
        text@ == path_text_spec(
            cache.nodes@,
            edge_lists(cache.out_edges@),
            *ends,
            from@,
            to@,
        ),
{
    if ends.from_count == 0 {
        return cat2("no symbol named ", quote(from).as_str());
    }
    if ends.to_count == 0 {
        return cat2("no symbol named ", quote(to).as_str());
    }
    match trace_path(cache, ends.from_positions.as_slice(), ends.to_positions.as_slice()) {
        Some(traced) => traced.render(cache.nodes.as_slice(), from, to),
        None => {
            let mut text = cat5(
                "no flow path between ",
                quote(from).as_str(),
                " and ",
                quote(to).as_str(),
                " within ",
            );
            text.append(decimal_u32(FLOW_HOPS_MAX).as_str());
            text.append(
                " hops (call / route / render / instantiate / inherit / template-inherit edges)",
            );
            text
        },
    }
}

// ---------------------------------------------------------------------------
// Responses

/// The refusal of a base that git will not read as a revision.
pub open spec fn base_refusal(base: Option<&str>) -> Option<Seq<char>> {
    match base {
        None => None,
        Some(base) => match refusal(base@) {
            None => None,
            Some(error) => Some(
                "base "@ + quoted(base@) + " is not usable as a git revision: "@ + error.text()
                    + ". Pass a branch, tag, commit hash, or an expression like HEAD~3."@,
            ),
        },
    }
}

/// The refusal text for a `base` git will not read as a revision, or `None` when it is fine or
/// absent. Refusing out loud rather than falling back to `HEAD`: a silent fallback answers a
/// question about one branch with the answer for another.
pub fn refused_base(base: Option<&str>) -> (text: Option<String>)
    ensures
        match text {
            Some(text) => base_refusal(base) == Some(text@),
            None => base_refusal(base) is None,
        },
{
    match base {
        None => None,
        Some(base) => match check_revision(base) {
            Ok(_) => None,
            Err(error) => Some(
                cat5(
                    "base ",
                    quote(base).as_str(),
                    " is not usable as a git revision: ",
                    error.message(),
                    ". Pass a branch, tag, commit hash, or an expression like HEAD~3.",
                ),
            ),
        },
    }
}

/// The paths that the first `count` lines name, up to a cap.
pub open spec fn paths_upto(lines: Seq<Seq<char>>, count: int) -> Seq<Seq<char>>
    decreases count,
{
    if count <= 0 {
        Seq::empty()
    } else {
        let before = paths_upto(lines, count - 1);
        match path_in_line_spec(lines[count - 1]) {
            Some(path) => if before.len() < SESSION_FILES_MAX {
                before.push(path)
            } else {
                before
            },
            None => before,
        }
    }
}

/// The files that a response names, as many as a session keeps.
pub fn paths_named(text: &str) -> (paths: Vec<String>)
    ensures
        views(paths@) == paths_upto(
            crate::chars::lines_spec(text@),
            crate::chars::lines_spec(text@).len() as int,
        ),
{
    let all = crate::chars::lines(text);
    let ghost line_list = crate::chars::lines_spec(text@);
    assert(line_list.len() == all@.len());
    let mut paths: Vec<String> = Vec::new();
    assert(views(paths@) =~= Seq::empty());
    for i in 0..all.len()
        invariant
            line_list == views(all@),
            views(paths@) == paths_upto(line_list, i as int),
    {
        let ghost before = paths@;
        assert(line_list[i as int] == all@[i as int]@);
        assert(views(before).len() == before.len());
        if let Some(path) = file_path_in_line(all[i].as_str()) {
            if paths.len() < SESSION_FILES_MAX {
                paths.push(path);
                assert(views(paths@) =~= views(before).push(path@));
            }
        }
    }
    paths
}

/// The response of an explore: the path between what was named, what is uncovered, and the source,
/// then the follow-up.
pub fn explore_response(flow: &str, coverage_note: &str, body: &str, hint: &str) -> (text: String)
    ensures
        text@ == with_hint_spec(flow@ + coverage_note@ + body@, hint@),
{
    with_hint(cat3(flow, coverage_note, body), hint)
}

/// What a query that matches nothing is answered.
pub fn no_match(query: &str) -> (text: String)
    ensures
        text@ == "no symbols matching "@ + quoted(query@),
{
    cat2("no symbols matching ", quote(query).as_str())
}

/// Some node is a model that the query names.
pub open spec fn names_a_model(nodes: Seq<Node>, query: Seq<char>) -> bool {
    exists|k: int|
        0 <= k < nodes.len() && (#[trigger] nodes[k]).kind == NodeKind::Model && query_names_spec(
            query,
            nodes[k].name@,
        )
}

/// The facts that an explore's follow-up rests on: whether the response reached its budget, whether
/// it names something uncovered, whether the query names a model, and the first seed.
pub fn explore_facts(
    nodes: &[Node],
    seed_positions: &[usize],
    query: &str,
    coverage_note: &str,
    body: &str,
) -> (facts: HintFacts)
    requires
        all_below(seed_positions@, nodes@.len() as int),
    ensures
        facts.at_byte_budget == occurs(body@, "output budget reached"@),
        !facts.flows_available,
        facts.has_uncovered_symbol == (coverage_note@.len() > 0),
        facts.named_model == names_a_model(nodes@, query@),
        match facts.named_symbol {
            Some(name) => seed_positions@.len() > 0 && name@
                == nodes@[seed_positions@[0] as int].name@,
            None => seed_positions@.len() == 0,
        },
{
    let mut named_model = false;
    for i in 0..nodes.len()
        invariant
            named_model == exists|k: int|
                0 <= k < i && (#[trigger] nodes@[k]).kind == NodeKind::Model && query_names_spec(
                    query@,
                    nodes@[k].name@,
                ),
    {
        if !named_model && nodes[i].kind == NodeKind::Model && query_names(
            query,
            nodes[i].name.as_str(),
        ) {
            named_model = true;
        }
    }
    let named_symbol: Option<String> = if seed_positions.len() > 0 {
        assert(seed_positions@[0] < nodes@.len());
        Some(copy(nodes[seed_positions[0]].name.as_str()))
    } else {
        None
    };
    HintFacts {
        at_byte_budget: contains(body, "output budget reached"),
        flows_available: false,
        has_uncovered_symbol: !coverage_note.is_empty(),
        named_model,
        named_symbol,
    }
}

/// No fact but the symbol that a call named.
pub open spec fn facts_name(facts: HintFacts, symbol: Seq<char>) -> bool {
    &&& !facts.at_byte_budget
    &&& !facts.flows_available
    &&& facts.named_symbol is Some
    &&& facts.named_symbol->0@ == symbol
}

/// The facts of a call on a named symbol.
pub fn symbol_facts(symbol: &str) -> (facts: HintFacts)
    ensures
        facts_name(facts, symbol@),
        !facts.has_uncovered_symbol,
        !facts.named_model,
{
    HintFacts {
        at_byte_budget: false,
        flows_available: false,
        has_uncovered_symbol: false,
        named_model: false,
        named_symbol: Some(copy(symbol)),
    }
}

/// The facts of a call for a model's schema.
pub fn model_facts(symbol: &str) -> (facts: HintFacts)
    ensures
        facts_name(facts, symbol@),
        !facts.has_uncovered_symbol,
        facts.named_model,
{
    HintFacts {
        at_byte_budget: false,
        flows_available: false,
        has_uncovered_symbol: false,
        named_model: true,
        named_symbol: Some(copy(symbol)),
    }
}

/// The facts of a call for a symbol's tests, read off its response.
pub fn tests_facts(symbol: &str, text: &str) -> (facts: HintFacts)
    ensures
        facts_name(facts, symbol@),
        facts.has_uncovered_symbol == occurs(text@, "(no covering tests)"@),
        !facts.named_model,
{
    HintFacts {
        at_byte_budget: false,
        flows_available: false,
        has_uncovered_symbol: contains(text, "(no covering tests)"),
        named_model: false,
        named_symbol: Some(copy(symbol)),
    }
}

/// The facts of a response whose first symbol a follow-up would target.
pub fn response_facts(text: &str, flows_available: bool, reviewing: bool) -> (facts: HintFacts)
    ensures
        !facts.at_byte_budget,
        facts.flows_available == flows_available,
        facts.has_uncovered_symbol == (reviewing && occurs(text@, "no tests"@)),
        !facts.named_model,
        match facts.named_symbol {
            Some(name) => first_name_from(crate::chars::lines_spec(text@), 0) == Some(name@),
            None => first_name_from(crate::chars::lines_spec(text@), 0) is None,
        },
{
    HintFacts {
        at_byte_budget: false,
        flows_available,
        has_uncovered_symbol: reviewing && contains(text, "no tests"),
        named_model: false,
        named_symbol: first_named_symbol(text),
    }
}

/// What a client is told when it connects: how to use the tools, and what the graph cannot see.
pub const INSTRUCTIONS: &'static str = "FIRST: before any Grep, Glob, Read, or other file search, for ANY question about this codebase \
    (where a symbol is, how it works, what calls / renders / extends what, a model's schema, or the \
    blast radius of a change), call a constellation tool. The graph is pre-built and sub-millisecond; \
    reach for grep/read only for literal text it cannot index (string contents, comments, log lines), \
    or to confirm one detail a constellation call already located.\n\nConstellation is a pre-built, \
    sub-millisecond code-intelligence graph of these Django projects: every symbol, call, and import, \
    plus Django structure grep can't give (routes->views, views->templates (render() and template= \
    kwargs), template extends/includes, model fields and foreign keys (relates_to), return and attribute \
    types (returns/type_of), signal handlers, and inheritance from third-party bases (an <external> \
    mixin resolves)). Consult it BEFORE grepping or reading files.\n\nTool names below are written \
    bare. Your client namespaces them with a prefix of its own (constellation_explore, mcp__constellation__explore, \
    and so on), so call each one exactly as it appears in your own tool list, not as it is spelled \
    here.\n\nTools by intent:\n- overview: orientation. Per project: file/symbol counts, the Django \
    surface (models/views/routes/templates), largest packages, cross-project link total. Read FIRST \
    when unfamiliar, before explore/files.\n- explore: PRIMARY, try first. Give symbol/file names \
    or concrete domain words (e.g. \"Order order_number generate\"), matched against names, docstrings, \
    AND source bodies (stemmed), then ranked by graph structure (exact name/file matches first). \
    Returns their source grouped by file (Read-equivalent), line-numbered. Use real code identifiers, \
    not abstract prose.\n- search: find a symbol by name (substring/fuzzy) when you only need its \
    location.\n- node: one symbol's kind, signature, docstring, caller/callee counts; pass Owner.member, \
    or the printed file::name, to disambiguate an overloaded name.\n- model: a Django model's effective \
    schema (own + inherited fields across its base chain (abstract bases, mixins), bases, and relations). \
    One call for what Django spreads over the MRO.\n- callers / callees: what references a symbol \
    / what it references; Django edges grep cannot follow, deduped (xN for repeats).\n- impact: transitive \
    non-test callers (blast radius) before a change.\n- path: the shortest call/flow path between \
    two symbols, i.e. how one reaches the other across files (give from + to); the answer to \"how \
    does X get to Y\".\n- at: the symbol at a file:line; map a traceback frame or grep hit to its \
    enclosing function/method/class.\n- files: project layout, packages with symbol counts (project=<id> \
    for a directory breakdown).\n- links: the cross-project links themselves, imports in one repo \
    resolved to a definition in another, grouped by repo pair.\n- status: index health and working-tree \
    staleness.\n- history: how a file or app changed over time from git history (the commits touching \
    a path, newest first, with +/- line churn); run `constellation history` first to populate it.\n- \
    symbol_history: how one symbol (function, method, class, Django model/view/route, or model field) \
    changed over time, the commits that added, modified (signature change), or removed it; run `constellation \
    history --symbols` first.\n- as_of: the symbols that existed at a past point (at=<commit hash \
    or YYYY-MM-DD>), grouped by file, with their signatures as they were then: \"what did this look \
    like at version X\". Needs `constellation history --symbols`.\n\nRecall caveat: edges come from \
    a static parse, scoped to imports (a cross-file call to a symbol the file does not import is \
    dropped, not guessed). Several dynamic patterns are KNOWN-DARK: a low caller/impact count on \
    these is NOT 'safe to change': (1) a custom QuerySet/Manager method reached only through a CHAINED \
    queryset (`.objects.active().by_year()`; the first hop resolves, later hops do not) or via `self.get_queryset()`; \
    a direct `Model.objects.by_year()` DOES resolve; (2) function-local imports and calls to external \
    module.attr() helpers; (3) a method reached only via a template ({{ obj }}), str()/__str__, the \
    admin, or a string-reference FK. Treat these layers as 'edges may be missing', not 'no edges'.";

/// What a client is told besides where the index spans several repositories.
pub const LINKED_INSTRUCTIONS: &'static str = "\n\nThis index spans multiple repos: imports crossing repository boundaries are linked, and callers/callees/explore \
    follow those cross-project edges.";

/// The instructions for an index with this many cross-project links.
pub fn instructions(links: u64) -> (text: String)
    ensures
        text@ == (if links > 0 {
            INSTRUCTIONS@ + LINKED_INSTRUCTIONS@
        } else {
            INSTRUCTIONS@
        }),
{
    if links > 0 {
        cat2(INSTRUCTIONS, LINKED_INSTRUCTIONS)
    } else {
        copy(INSTRUCTIONS)
    }
}

/// Ranking walks an undirected graph: one node is a neighbour of another exactly where the other is
/// a neighbour of it.
pub proof fn law_adjacency_is_mutual(
    nodes: Seq<Node>,
    edges: Seq<GraphEdge>,
    left: u32,
    right: u32,
    count: int,
)
    requires
        0 <= count <= edges.len(),
        nodes.len() <= u32::MAX,
        left < nodes.len(),
        right < nodes.len(),
    ensures
        neighbours(nodes, edges, left as int, count).contains(right) <==> neighbours(
            nodes,
            edges,
            right as int,
            count,
        ).contains(left),
    decreases count,
{
    if count > 0 {
        law_adjacency_is_mutual(nodes, edges, left, right, count - 1);
        lemma_neighbour_joins(nodes, edges, left, right, count);
        lemma_neighbour_joins(nodes, edges, right, left, count);
    }
}

proof fn lemma_neighbour_joins(
    nodes: Seq<Node>,
    edges: Seq<GraphEdge>,
    node: u32,
    other: u32,
    count: int,
)
    requires
        0 < count <= edges.len(),
        nodes.len() <= u32::MAX,
        node < nodes.len(),
        other < nodes.len(),
    ensures
        neighbours(nodes, edges, node as int, count).contains(other) <==> (neighbours(
            nodes,
            edges,
            node as int,
            count - 1,
        ).contains(other) || edge_ends(nodes, edges[count - 1]) == Some(
            (node as int, other as int),
        ) || edge_ends(nodes, edges[count - 1]) == Some((other as int, node as int))),
{
    let ids = graph_ids(nodes);
    let edge = edges[count - 1];
    lemma_last_at(ids, edge.source@, ids.len() as int);
    lemma_last_at(ids, edge.target@, ids.len() as int);
    let before = neighbours(nodes, edges, node as int, count - 1);
    let after = neighbours(nodes, edges, node as int, count);
    if before.contains(other) {
        let k = choose|k: int| 0 <= k < before.len() && before[k] == other;
        assert(after[k] == other);
    }
    match edge_ends(nodes, edge) {
        Some((from, to)) => {
            let onward = if from == node {
                before.push(to as u32)
            } else {
                before
            };
            if from == node && to == other {
                assert(after[before.len() as int] == other);
            }
            if to == node && from == other {
                assert(after[onward.len() as int] == other);
            }
            if after.contains(other) && !before.contains(other) {
                let k = choose|k: int| 0 <= k < after.len() && after[k] == other;
                if k < before.len() {
                    assert(before[k] == other);
                }
            }
        },
        None => {},
    }
}

/// The path runs between this pair, in the direction it says.
pub open spec fn runs_between(
    edges: Seq<Seq<(u32, EdgeKind)>>,
    traced: TraceView,
    source: int,
    target: int,
) -> bool {
    let (start, end) = if traced.reversed {
        (target, source)
    } else {
        (source, target)
    };
    traced.source == start && flow_walk(edges, start, traced.hops) && path_end(start, traced.hops)
        == end
}

/// A traced path is a flow path between one of the sources and one of the targets, and says which
/// way it runs.
pub proof fn law_a_traced_path_connects(
    edges: Seq<Seq<(u32, EdgeKind)>>,
    sources: Seq<usize>,
    targets: Seq<usize>,
)
    requires
        edges_valid(edges),
        all_below(sources, edges.len() as int),
        all_below(targets, edges.len() as int),
    ensures
        trace_spec(edges, sources, targets) matches Some(traced) ==> exists|i: int, j: int|
            0 <= i < sources.len() && 0 <= j < targets.len() && runs_between(
                edges,
                traced,
                #[trigger] sources[i] as int,
                #[trigger] targets[j] as int,
            ),
{
    lemma_traced_one_way(edges, sources, targets, false, 0);
    lemma_traced_one_way(edges, sources, targets, true, 0);
}

proof fn lemma_traced_one_way(
    edges: Seq<Seq<(u32, EdgeKind)>>,
    sources: Seq<usize>,
    targets: Seq<usize>,
    reversed: bool,
    at: int,
)
    requires
        edges_valid(edges),
        all_below(sources, edges.len() as int),
        all_below(targets, edges.len() as int),
    ensures
        trace_one_way(edges, sources, targets, reversed, at) matches Some(traced) ==> exists|
            i: int,
            j: int,
        |
            0 <= i < sources.len() && 0 <= j < targets.len() && runs_between(
                edges,
                traced,
                #[trigger] sources[i] as int,
                #[trigger] targets[j] as int,
            ),
    decreases sources.len() - at,
{
    if 0 <= at < sources.len() {
        assert(sources[at] < edges.len());
        lemma_traced_to_any(edges, sources[at] as int, targets, reversed, 0);
        lemma_traced_one_way(edges, sources, targets, reversed, at + 1);
    }
}

proof fn lemma_traced_to_any(
    edges: Seq<Seq<(u32, EdgeKind)>>,
    source: int,
    targets: Seq<usize>,
    reversed: bool,
    at: int,
)
    requires
        edges_valid(edges),
        0 <= source < edges.len(),
        all_below(targets, edges.len() as int),
    ensures
        trace_to_any(edges, source, targets, reversed, at) matches Some(traced) ==> exists|j: int|
            0 <= j < targets.len() && runs_between(
                edges,
                traced,
                source,
                #[trigger] targets[j] as int,
            ),
    decreases targets.len() - at,
{
    if 0 <= at < targets.len() {
        assert(targets[at] < edges.len());
        law_found_path_is_a_flow_path(edges, source, targets[at] as int);
        law_found_path_is_a_flow_path(edges, targets[at] as int, source);
        lemma_traced_to_any(edges, source, targets, reversed, at + 1);
    }
}

/// Where nothing is traced, no source and no target have a path between them in either direction.
pub proof fn law_nothing_traced_is_unconnected(
    edges: Seq<Seq<(u32, EdgeKind)>>,
    sources: Seq<usize>,
    targets: Seq<usize>,
    i: int,
    j: int,
)
    requires
        trace_spec(edges, sources, targets) is None,
        0 <= i < sources.len(),
        0 <= j < targets.len(),
    ensures
        flow_path(edges, sources[i] as int, targets[j] as int) is None,
        flow_path(edges, targets[j] as int, sources[i] as int) is None,
{
    lemma_untraced(edges, sources, targets, false, 0, i, j);
    lemma_untraced(edges, sources, targets, true, 0, i, j);
}

/// A path is said to run backwards only where no source reaches any target.
pub proof fn law_a_path_runs_backwards_only_where_none_runs_forwards(
    edges: Seq<Seq<(u32, EdgeKind)>>,
    sources: Seq<usize>,
    targets: Seq<usize>,
    i: int,
    j: int,
)
    requires
        trace_spec(edges, sources, targets) matches Some(traced) && traced.reversed,
        0 <= i < sources.len(),
        0 <= j < targets.len(),
    ensures
        flow_path(edges, sources[i] as int, targets[j] as int) is None,
{
    lemma_one_way(edges, sources, targets, false, 0);
    lemma_untraced(edges, sources, targets, false, 0, i, j);
}

proof fn lemma_one_way(
    edges: Seq<Seq<(u32, EdgeKind)>>,
    sources: Seq<usize>,
    targets: Seq<usize>,
    reversed: bool,
    at: int,
)
    ensures
        trace_one_way(edges, sources, targets, reversed, at) matches Some(traced)
            ==> traced.reversed == reversed,
    decreases sources.len() - at,
{
    if 0 <= at < sources.len() {
        lemma_one_way_to_any(edges, sources[at] as int, targets, reversed, 0);
        lemma_one_way(edges, sources, targets, reversed, at + 1);
    }
}

proof fn lemma_one_way_to_any(
    edges: Seq<Seq<(u32, EdgeKind)>>,
    source: int,
    targets: Seq<usize>,
    reversed: bool,
    at: int,
)
    ensures
        trace_to_any(edges, source, targets, reversed, at) matches Some(traced) ==> traced.reversed
            == reversed,
    decreases targets.len() - at,
{
    if 0 <= at < targets.len() {
        lemma_one_way_to_any(edges, source, targets, reversed, at + 1);
    }
}

proof fn lemma_untraced(
    edges: Seq<Seq<(u32, EdgeKind)>>,
    sources: Seq<usize>,
    targets: Seq<usize>,
    reversed: bool,
    at: int,
    i: int,
    j: int,
)
    requires
        trace_one_way(edges, sources, targets, reversed, at) is None,
        0 <= at <= i < sources.len(),
        0 <= j < targets.len(),
    ensures
        trace_pair(edges, sources[i] as int, targets[j] as int, reversed) is None,
    decreases sources.len() - at,
{
    if at == i {
        lemma_untraced_to_any(edges, sources[i] as int, targets, reversed, 0, j);
    } else {
        lemma_untraced(edges, sources, targets, reversed, at + 1, i, j);
    }
}

proof fn lemma_untraced_to_any(
    edges: Seq<Seq<(u32, EdgeKind)>>,
    source: int,
    targets: Seq<usize>,
    reversed: bool,
    at: int,
    j: int,
)
    requires
        trace_to_any(edges, source, targets, reversed, at) is None,
        0 <= at <= j < targets.len(),
    ensures
        trace_pair(edges, source, targets[j] as int, reversed) is None,
    decreases targets.len() - at,
{
    if at < j {
        lemma_untraced_to_any(edges, source, targets, reversed, at + 1, j);
    }
}

// ---------------------------------------------------------------------------
// What the graph is made of

/// The node at this place is the one that goes by this id: it has it, and no later one does.
pub open spec fn goes_by(nodes: Seq<Node>, at: int, id: Seq<char>) -> bool {
    0 <= at < nodes.len() && nodes[at].id@ == id && forall|k: int|
        at < k < nodes.len() ==> (#[trigger] nodes[k]).id@ != id
}

proof fn lemma_goes_by(ids: Seq<Seq<char>>, id: Seq<char>, count: int, at: int)
    requires
        0 <= at < count <= ids.len(),
        ids[at] == id,
        forall|k: int| at < k < count ==> #[trigger] ids[k] != id,
    ensures
        last_at(ids, id, count) == Some(at),
    decreases count,
{
    if at < count - 1 {
        lemma_goes_by(ids, id, count - 1, at);
    }
}

/// Every edge between two nodes of the graph leads from its source to its target, and makes each a
/// neighbour of the other.
pub proof fn law_every_edge_joins_its_ends(
    nodes: Seq<Node>,
    edges: Seq<GraphEdge>,
    edge: int,
    from: int,
    to: int,
)
    requires
        0 <= edge < edges.len(),
        nodes.len() <= u32::MAX,
        goes_by(nodes, from, edges[edge].source@),
        goes_by(nodes, to, edges[edge].target@),
    ensures
        leading_from(nodes, edges, from, edges.len() as int).contains(
            (to as u32, edges[edge].kind),
        ),
        neighbours(nodes, edges, from, edges.len() as int).contains(to as u32),
        neighbours(nodes, edges, to, edges.len() as int).contains(from as u32),
{
    let ids = graph_ids(nodes);
    assert(forall|k: int| 0 <= k < nodes.len() ==> #[trigger] ids[k] == nodes[k].id@);
    lemma_goes_by(ids, edges[edge].source@, ids.len() as int, from);
    lemma_goes_by(ids, edges[edge].target@, ids.len() as int, to);
    lemma_edge_stays(nodes, edges, edge, from, to, edges.len() as int);
}

proof fn lemma_edge_stays(
    nodes: Seq<Node>,
    edges: Seq<GraphEdge>,
    edge: int,
    from: int,
    to: int,
    count: int,
)
    requires
        0 <= edge < count <= edges.len(),
        edge_ends(nodes, edges[edge]) == Some((from, to)),
    ensures
        leading_from(nodes, edges, from, count).contains((to as u32, edges[edge].kind)),
        neighbours(nodes, edges, from, count).contains(to as u32),
        neighbours(nodes, edges, to, count).contains(from as u32),
    decreases count,
{
    let led = leading_from(nodes, edges, from, count);
    let onward = neighbours(nodes, edges, from, count);
    let back = neighbours(nodes, edges, to, count);
    let hop = (to as u32, edges[edge].kind);
    if edge == count - 1 {
        assert(led[led.len() - 1] == hop);
        let before = neighbours(nodes, edges, from, count - 1);
        assert(onward[before.len() as int] == to as u32);
        assert(back[back.len() - 1] == from as u32);
    } else {
        lemma_edge_stays(nodes, edges, edge, from, to, count - 1);
        let led_before = leading_from(nodes, edges, from, count - 1);
        let k = choose|k: int| 0 <= k < led_before.len() && led_before[k] == hop;
        assert(led[k] == hop);
        let onward_before = neighbours(nodes, edges, from, count - 1);
        let k = choose|k: int| 0 <= k < onward_before.len() && onward_before[k] == to as u32;
        assert(onward[k] == to as u32);
        let back_before = neighbours(nodes, edges, to, count - 1);
        let k = choose|k: int| 0 <= k < back_before.len() && back_before[k] == from as u32;
        assert(back[k] == from as u32);
    }
}

/// Nothing leads anywhere without an edge: what leads from a node is an edge of the graph out of a
/// node of its id.
pub proof fn law_only_edges_lead(
    nodes: Seq<Node>,
    edges: Seq<GraphEdge>,
    from: int,
    count: int,
    at: int,
) -> (edge: int)
    requires
        0 <= count <= edges.len(),
        0 <= at < leading_from(nodes, edges, from, count).len(),
    ensures
        0 <= edge < count,
        leading_from(nodes, edges, from, count)[at].1 == edges[edge].kind,
        0 <= from < nodes.len(),
        nodes[from].id@ == edges[edge].source@,
    decreases count,
{
    let before = leading_from(nodes, edges, from, count - 1);
    if at < before.len() {
        law_only_edges_lead(nodes, edges, from, count - 1, at)
    } else {
        let ids = graph_ids(nodes);
        lemma_last_at(ids, edges[count - 1].source@, ids.len() as int);
        count - 1
    }
}

/// Of the ids asked for, those that some node has are kept, each in its place.
pub proof fn law_every_id_that_is_held_is_kept(
    nodes: Seq<Node>,
    ids: Seq<Seq<char>>,
    count: int,
    at: int,
)
    requires
        0 <= count <= ids.len(),
    ensures
        held_upto(nodes, ids, count).contains(at) <==> 0 <= at < count && exists|k: int|
            0 <= k < nodes.len() && (#[trigger] nodes[k]).id@ == ids[at],
    decreases count,
{
    let held = held_upto(nodes, ids, count);
    if count <= 0 {
        assert(!held.contains(at));
    } else {
        law_every_id_that_is_held_is_kept(nodes, ids, count - 1, at);
        let before = held_upto(nodes, ids, count - 1);
        if before.contains(at) {
            let k = choose|k: int| 0 <= k < before.len() && before[k] == at;
            assert(held[k] == at);
        }
        if at == count - 1 && graph_holds(nodes, ids[at]) {
            assert(held[held.len() - 1] == at);
        }
        if held.contains(at) && !before.contains(at) {
            let k = choose|k: int| 0 <= k < held.len() && held[k] == at;
            if k < before.len() {
                assert(before[k] == at);
            }
        }
    }
}

/// A query that gives the name of a model names one, and one that gives the name of none does not.
pub proof fn law_a_query_names_its_models(nodes: Seq<Node>, query: Seq<char>, at: int)
    requires
        0 <= at < nodes.len(),
    ensures
        nodes[at].kind is Model && query_names_spec(query, nodes[at].name@) ==> names_a_model(
            nodes,
            query,
        ),
        (forall|k: int|
            0 <= k < nodes.len() && query_names_spec(query, (#[trigger] nodes[k]).name@) ==> !(
            nodes[k].kind is Model)) ==> !names_a_model(nodes, query),
{
}

} // verus!
