//! Every layer of one Django feature, from route to template.
use crate::chars::{cat3, cat4, copy, quote, quoted, same_text, views};
use crate::graph::{EdgeKind, Node, NodeKind};
use crate::keys::{distinct, key_at, lemma_key_at, KeyIndex};
use crate::limits::{FEATURE_DEPTH_MAX, FEATURE_NODES_MAX, FEATURE_SEED_DISAMBIGUATION_MAX};
use crate::numbers::{decimal_spec, decimal_usize};
use crate::order::{
    arrange, arranged, key_view, keys_view, law_arranging_sorts, lemma_not_after, sorted_order,
    text_less, Part, PartView,
};
use crate::render::{node_line, node_line_spec};
use crate::symbols::{role_spec, symbol_role};
use crate::tools::impact::{node_ids, smaller};
use crate::tools::symbol::{counting, node_projects};
use vstd::prelude::*;

verus! {

/// The label of a group of a feature slice.
pub open spec fn feature_label(category: int) -> Seq<char> {
    if category == 0 {
        "routes"@
    } else if category == 1 {
        "views"@
    } else if category == 2 {
        "templates"@
    } else if category == 3 {
        "models"@
    } else if category == 4 {
        "classes"@
    } else if category == 5 {
        "functions"@
    } else {
        "other"@
    }
}

fn label_of(category: u8) -> (label: &'static str)
    ensures
        label@ == feature_label(category as int),
{
    if category == 0 {
        "routes"
    } else if category == 1 {
        "views"
    } else if category == 2 {
        "templates"
    } else if category == 3 {
        "models"
    } else if category == 4 {
        "classes"
    } else if category == 5 {
        "functions"
    } else {
        "other"
    }
}

/// An edge that extends a feature downstream: the Django request and data path.
pub open spec fn feature_downstream(kind: EdgeKind) -> bool {
    match kind {
        EdgeKind::RoutesTo
        | EdgeKind::Renders
        | EdgeKind::ExtendsTemplate
        | EdgeKind::IncludesTemplate
        | EdgeKind::RelatesTo
        | EdgeKind::Instantiates
        | EdgeKind::Extends
        | EdgeKind::Receives
        | EdgeKind::Handles
        | EdgeKind::Resolves => true,
        _ => false,
    }
}

/// Whether an edge kind extends a feature downstream, followed as callees: routing, rendering,
/// template inheritance, model relations, service and queryset instantiation, base mixins, signal
/// handlers. Plain calls are excluded so a view's every helper does not dilute the slice.
pub fn is_feature_downstream(kind: EdgeKind) -> (found: bool)
    ensures
        found == feature_downstream(kind),
{
    match kind {
        EdgeKind::RoutesTo
        | EdgeKind::Renders
        | EdgeKind::ExtendsTemplate
        | EdgeKind::IncludesTemplate
        | EdgeKind::RelatesTo
        | EdgeKind::Instantiates
        | EdgeKind::Extends
        | EdgeKind::Receives
        | EdgeKind::Handles
        | EdgeKind::Resolves => true,
        _ => false,
    }
}

/// A plain call to this symbol reaches the data layer of a feature.
pub open spec fn feature_call_target(node: Node) -> bool {
    node.kind == NodeKind::Model || role_spec(node) == Some("service"@) || role_spec(node) == Some(
        "queryset"@,
    ) || role_spec(node) == Some("form"@) || role_spec(node) == Some("serializer"@) || role_spec(
        node,
    ) == Some("model"@)
}

/// Whether a plain call target belongs in the slice: a view reaches its data layer by calling a
/// service, queryset, form, or model method. Only role-carrying targets and models qualify, so a
/// view's private formatting helper stays out.
pub fn is_feature_call_target(node: &Node) -> (found: bool)
    ensures
        found == feature_call_target(*node),
{
    if node.kind == NodeKind::Model {
        return true;
    }
    match symbol_role(node) {
        Some(role) => same_text(role, "service") || same_text(role, "queryset") || same_text(
            role,
            "form",
        ) || same_text(role, "serializer") || same_text(role, "model"),
        None => false,
    }
}

/// An edge by which an entry point leads into a feature.
pub open spec fn feature_upstream(kind: EdgeKind) -> bool {
    kind == EdgeKind::RoutesTo || kind == EdgeKind::Renders || kind == EdgeKind::RelatesTo
}

/// Whether an edge kind is pulled in upstream from the seed only: the entry points into a feature.
pub fn is_feature_upstream(kind: EdgeKind) -> (found: bool)
    ensures
        found == feature_upstream(kind),
{
    kind == EdgeKind::RoutesTo || kind == EdgeKind::Renders || kind == EdgeKind::RelatesTo
}

/// An edge of the request chain.
pub open spec fn feature_chain(kind: EdgeKind) -> bool {
    kind == EdgeKind::RoutesTo || kind == EdgeKind::Renders || kind == EdgeKind::ExtendsTemplate
        || kind == EdgeKind::IncludesTemplate
}

/// Whether a feature edge is followed transitively: the request chain. Other feature edges are
/// collected one hop deep only, so a densely related model does not drag the whole model graph
/// into the slice.
pub fn is_feature_chain(kind: EdgeKind) -> (found: bool)
    ensures
        found == feature_chain(kind),
{
    kind == EdgeKind::RoutesTo || kind == EdgeKind::Renders || kind == EdgeKind::ExtendsTemplate
        || kind == EdgeKind::IncludesTemplate
}

/// The group a symbol falls into.
pub open spec fn category_spec(kind: NodeKind) -> int {
    match kind {
        NodeKind::Route => 0,
        NodeKind::View => 1,
        NodeKind::Template => 2,
        NodeKind::Model => 3,
        NodeKind::Class => 4,
        NodeKind::Function | NodeKind::Method => 5,
        _ => 6,
    }
}

/// The display group a node falls into for the feature slice, and its order.
pub fn feature_category(kind: NodeKind) -> (category: u8)
    ensures
        category == category_spec(kind),
{
    match kind {
        NodeKind::Route => 0,
        NodeKind::View => 1,
        NodeKind::Template => 2,
        NodeKind::Model => 3,
        NodeKind::Class => 4,
        NodeKind::Function | NodeKind::Method => 5,
        _ => 6,
    }
}

/// A feature can be sliced from this symbol.
pub open spec fn sliceable(kind: NodeKind) -> bool {
    category_spec(kind) < 6
}

/// The positions of the sliceable ones of the first `count` nodes.
pub open spec fn slice_positions(nodes: Seq<Node>, count: int) -> Seq<usize>
    decreases count,
{
    if count <= 0 {
        Seq::empty()
    } else if sliceable(nodes[count - 1].kind) {
        slice_positions(nodes, count - 1).push((count - 1) as usize)
    } else {
        slice_positions(nodes, count - 1)
    }
}

/// The nodes at these positions.
pub open spec fn nodes_at(nodes: Seq<Node>, positions: Seq<usize>) -> Seq<Node> {
    positions.map_values(|p: usize| nodes[p as int])
}

/// The symbols a slice starts from.
pub open spec fn slice_seeds(nodes: Seq<Node>) -> Seq<Node> {
    nodes_at(nodes, slice_positions(nodes, nodes.len() as int))
}

fn seed_positions(nodes: &[Node]) -> (positions: Vec<usize>)
    ensures
        positions@ == slice_positions(nodes@, nodes@.len() as int),
        forall|k: int| 0 <= k < positions@.len() ==> #[trigger] positions@[k] < nodes@.len(),
{
    let mut positions: Vec<usize> = Vec::new();
    for i in 0..nodes.len()
        invariant
            positions@ == slice_positions(nodes@, i as int),
            forall|k: int| 0 <= k < positions@.len() ==> #[trigger] positions@[k] < nodes@.len(),
    {
        if feature_category(nodes[i].kind) < 6 {
            positions.push(i);
        }
    }
    positions
}

/// A member of a feature slice: its group, its place in the source, and its line.
#[verifier::ext_equal]
pub struct MemberView {
    pub category: int,
    pub path: Seq<char>,
    pub line: int,
    pub text: Seq<char>,
}

/// A symbol as a member of a slice.
pub open spec fn member_of(node: Node) -> MemberView {
    MemberView {
        category: category_spec(node.kind),
        path: node.file_path@,
        line: node.span.start_line as int,
        text: "    "@ + node_line_spec(node) + match role_spec(node) {
            Some(role) => " ["@ + role + "]\n"@,
            None => "\n"@,
        },
    }
}

/// A symbol whose edges the walk has yet to read: its id, how deep it stands, and whether a plain
/// call from it reaches the data layer.
pub struct ReachView {
    pub id: Seq<char>,
    pub depth: int,
    pub data_layer: bool,
}

/// What a walk over a feature has gathered so far.
#[verifier::ext_equal]
pub struct FeatureView {
    pub visited: Seq<Seq<char>>,
    /// The symbols yet to be read, the next one last.
    pub frontier: Seq<ReachView>,
    pub members: Seq<MemberView>,
}

/// The seeds as the first symbols to read.
pub open spec fn seed_frontier(seeds: Seq<Node>) -> Seq<ReachView> {
    seeds.map_values(|node: Node| ReachView { id: node.id@, depth: 0, data_layer: true })
}

/// The walk before it has read anything.
pub open spec fn feature_start(seeds: Seq<Node>) -> FeatureView {
    FeatureView {
        visited: distinct(node_ids(seeds), seeds.len() as int),
        frontier: seed_frontier(seeds),
        members: seeds.map_values(|node: Node| member_of(node)),
    }
}

/// The walk once it has met one callee of the symbol it reads. Up to its cap, it takes in each
/// symbol of the request and data path once, and follows the request chain from it. The view that
/// a route names counts as a seed for plain calls: a route is pure indirection.
pub open spec fn feature_met(
    walk: FeatureView,
    from: ReachView,
    callee: (EdgeKind, Node),
) -> FeatureView {
    let wanted = feature_downstream(callee.0) || (from.data_layer && callee.0 == EdgeKind::Calls
        && feature_call_target(callee.1));
    if walk.members.len() >= FEATURE_NODES_MAX || !wanted || key_at(
        walk.visited,
        callee.1.id@,
        0,
    ) is Some {
        walk
    } else {
        FeatureView {
            visited: walk.visited.push(callee.1.id@),
            members: walk.members.push(member_of(callee.1)),
            frontier: if feature_chain(callee.0) && from.depth + 1 < FEATURE_DEPTH_MAX {
                walk.frontier.push(
                    ReachView {
                        id: callee.1.id@,
                        depth: from.depth + 1,
                        data_layer: callee.0 == EdgeKind::RoutesTo,
                    },
                )
            } else {
                walk.frontier
            },
        }
    }
}

/// The walk once it has met the first `count` callees.
pub open spec fn feature_met_all(
    walk: FeatureView,
    from: ReachView,
    callees: Seq<(EdgeKind, Node)>,
    count: int,
) -> FeatureView
    decreases count,
{
    if count <= 0 {
        walk
    } else {
        feature_met(feature_met_all(walk, from, callees, count - 1), from, callees[count - 1])
    }
}

/// The walk once it has met one caller of a seed: an entry point is taken in, and not followed.
pub open spec fn entry_met(walk: FeatureView, caller: (EdgeKind, Node)) -> FeatureView {
    if feature_upstream(caller.0) && key_at(walk.visited, caller.1.id@, 0) is None {
        FeatureView {
            visited: walk.visited.push(caller.1.id@),
            members: walk.members.push(member_of(caller.1)),
            ..walk
        }
    } else {
        walk
    }
}

/// The walk once it has met the first `count` callers of a seed.
pub open spec fn entries_met(
    walk: FeatureView,
    callers: Seq<(EdgeKind, Node)>,
    count: int,
) -> FeatureView
    decreases count,
{
    if count <= 0 {
        walk
    } else {
        entry_met(entries_met(walk, callers, count - 1), callers[count - 1])
    }
}

/// The walk once it has read one more symbol: the one it came to last. The callers of a seed are
/// its entry points; those of any other symbol do not matter.
pub open spec fn feature_step(
    walk: FeatureView,
    callees: Seq<(EdgeKind, Node)>,
    callers: Seq<(EdgeKind, Node)>,
) -> FeatureView {
    let from = walk.frontier.last();
    let down = feature_met_all(
        FeatureView { frontier: walk.frontier.drop_last(), ..walk },
        from,
        callees,
        callees.len() as int,
    );
    if from.depth == 0 {
        entries_met(down, callers, callers.len() as int)
    } else {
        down
    }
}

struct Member {
    category: u8,
    path: String,
    line: u32,
    text: String,
}

spec fn members_view(members: Seq<Member>) -> Seq<MemberView> {
    members.map_values(
        |member: Member|
            MemberView {
                category: member.category as int,
                path: member.path@,
                line: member.line as int,
                text: member.text@,
            },
    )
}

struct Reach {
    id: String,
    depth: u32,
    data_layer: bool,
}

spec fn reach_view(reach: Reach) -> ReachView {
    ReachView { id: reach.id@, depth: reach.depth as int, data_layer: reach.data_layer }
}

spec fn reaches_view(reaches: Seq<Reach>) -> Seq<ReachView> {
    reaches.map_values(|reach: Reach| reach_view(reach))
}

fn member(node: &Node) -> (member: Member)
    ensures
        members_view(seq![member])[0] == member_of(*node),
{
    let tail = match symbol_role(node) {
        Some(role) => cat3(" [", role, "]\n"),
        None => copy("\n"),
    };
    Member {
        category: feature_category(node.kind),
        path: copy(node.file_path.as_str()),
        line: node.span.start_line,
        text: cat3("    ", node_line(node).as_str(), tail.as_str()),
    }
}

/// A walk over the Django structural edges of a feature. It says which symbol it needs the edges
/// of, and takes them in.
pub struct FeatureWalk {
    visited: KeyIndex,
    frontier: Vec<Reach>,
    members: Vec<Member>,
}

impl View for FeatureWalk {
    type V = FeatureView;

    closed spec fn view(&self) -> FeatureView {
        FeatureView {
            visited: self.visited@,
            frontier: reaches_view(self.frontier@),
            members: members_view(self.members@),
        }
    }
}

impl FeatureWalk {
    pub closed spec fn wf(self) -> bool {
        &&& self.visited.wf()
        &&& forall|k: int|
            0 <= k < self.frontier@.len() ==> (#[trigger] self.frontier@[k]).depth
                < FEATURE_DEPTH_MAX
    }

    /// The walk before it has read anything, from the sliceable ones of these symbols.
    pub fn new(nodes: &[Node]) -> (walk: FeatureWalk)
        ensures
            walk.wf(),
            walk@ == feature_start(slice_seeds(nodes@)),
    {
        let positions = seed_positions(nodes);
        let ghost seeds = slice_seeds(nodes@);
        assert(seeds.len() == positions@.len());
        let mut visited = KeyIndex::new();
        let mut frontier: Vec<Reach> = Vec::new();
        let mut members: Vec<Member> = Vec::new();
        let ghost wanted = feature_start(seeds);
        assert(reaches_view(frontier@) =~= wanted.frontier.take(0));
        assert(members_view(members@) =~= wanted.members.take(0));
        for i in 0..positions.len()
            invariant
                forall|k: int| 0 <= k < positions@.len() ==> #[trigger] positions@[k] < nodes@.len(),
                seeds == nodes_at(nodes@, positions@),
                wanted == feature_start(seeds),
                visited.wf(),
                visited@ == distinct(node_ids(seeds), i as int),
                reaches_view(frontier@) == wanted.frontier.take(i as int),
                members_view(members@) == wanted.members.take(i as int),
                forall|k: int| 0 <= k < frontier@.len() ==> (#[trigger] frontier@[k]).depth == 0,
        {
            let ghost reached = frontier@;
            let ghost joined = members@;
            assert(positions@[i as int] < nodes@.len());
            let node = &nodes[positions[i]];
            assert(seeds[i as int] == *node);
            assert(node_ids(seeds)[i as int] == node.id@);
            let id = node.id.as_str();
            if visited.find(id).is_none() {
                visited.add(id);
            }
            let reach = Reach { id: copy(id), depth: 0, data_layer: true };
            frontier.push(reach);
            let entry = member(node);
            members.push(entry);
            assert(members_view(seq![entry])[0] == member_of(*node));
            assert(reaches_view(frontier@) =~= reaches_view(reached).push(
                wanted.frontier[i as int],
            ));
            assert(members_view(members@) =~= members_view(joined).push(wanted.members[i as int]));
            assert(wanted.frontier.take(i + 1) =~= wanted.frontier.take(i as int).push(
                wanted.frontier[i as int],
            ));
            assert(wanted.members.take(i + 1) =~= wanted.members.take(i as int).push(
                wanted.members[i as int],
            ));
        }
        assert(wanted.frontier.take(seeds.len() as int) =~= wanted.frontier);
        assert(wanted.members.take(seeds.len() as int) =~= wanted.members);
        FeatureWalk { visited, frontier, members }
    }

    /// The id of the symbol to read next, and whether its callers are needed too; `None` once
    /// every symbol is read or the slice is full.
    pub fn next_symbol(&self) -> (next: Option<(&str, bool)>)
        ensures
            match next {
                Some((id, callers)) => self@.frontier.len() > 0 && self@.members.len()
                    < FEATURE_NODES_MAX && id@ == self@.frontier.last().id && callers == (
                self@.frontier.last().depth == 0),
                None => self@.frontier.len() == 0 || self@.members.len() >= FEATURE_NODES_MAX,
            },
    {
        assert(self@.frontier.len() == self.frontier@.len());
        assert(self@.members.len() == self.members@.len());
        if self.frontier.len() == 0 || self.members.len() >= FEATURE_NODES_MAX {
            return None;
        }
        let last = &self.frontier[self.frontier.len() - 1];
        Some((last.id.as_str(), last.depth == 0))
    }

    /// The symbol that came next read: its callees, and for a seed its callers.
    pub fn read_symbol(&mut self, callees: &[(EdgeKind, Node)], callers: &[(EdgeKind, Node)])
        requires
            old(self).wf(),
            old(self)@.frontier.len() > 0,
        ensures
            final(self).wf(),
            final(self)@ == feature_step(old(self)@, callees@, callers@),
    {
        let ghost before = self.frontier@;
        let ghost start = FeatureView { frontier: self@.frontier.drop_last(), ..self@ };
        let ghost last = self@.frontier.last();
        assert(self@.frontier.len() == before.len());
        assert(before[before.len() - 1].depth < FEATURE_DEPTH_MAX);
        let from = match self.frontier.pop() {
            Some(from) => from,
            None => {
                return;
            },
        };
        assert(reach_view(from) == last);
        assert(reaches_view(self.frontier@) =~= reaches_view(before).drop_last());
        for i in 0..callees.len()
            invariant
                self.wf(),
                from.depth < FEATURE_DEPTH_MAX,
                reach_view(from) == last,
                self@ == feature_met_all(start, last, callees@, i as int),
        {
            self.meet(&from, &callees[i]);
        }
        let ghost down = self@;
        if from.depth == 0 {
            for i in 0..callers.len()
                invariant
                    self.wf(),
                    self@ == entries_met(down, callers@, i as int),
            {
                self.meet_entry(&callers[i]);
            }
        }
    }

    fn meet(&mut self, from: &Reach, callee: &(EdgeKind, Node))
        requires
            old(self).wf(),
            from.depth < FEATURE_DEPTH_MAX,
        ensures
            final(self).wf(),
            final(self)@ == feature_met(old(self)@, reach_view(*from), *callee),
    {
        assert(self@.members.len() == self.members@.len());
        if self.members.len() >= FEATURE_NODES_MAX {
            return;
        }
        let wanted = is_feature_downstream(callee.0) || (from.data_layer && callee.0
            == EdgeKind::Calls && is_feature_call_target(&callee.1));
        let id = callee.1.id.as_str();
        if !wanted || self.visited.find(id).is_some() {
            return;
        }
        let ghost joined = self.members@;
        let ghost reached = self.frontier@;
        self.visited.add(id);
        let entry = member(&callee.1);
        self.members.push(entry);
        assert(members_view(seq![entry])[0] == member_of(callee.1));
        assert(members_view(self.members@) =~= members_view(joined).push(member_of(callee.1)));
        if is_feature_chain(callee.0) && from.depth + 1 < FEATURE_DEPTH_MAX {
            let reach = Reach {
                id: copy(id),
                depth: from.depth + 1,
                data_layer: callee.0 == EdgeKind::RoutesTo,
            };
            self.frontier.push(reach);
            assert(reaches_view(self.frontier@) =~= reaches_view(reached).push(reach_view(reach)));
        }
    }

    fn meet_entry(&mut self, caller: &(EdgeKind, Node))
        requires
            old(self).wf(),
        ensures
            final(self).wf(),
            final(self)@ == entry_met(old(self)@, *caller),
    {
        let id = caller.1.id.as_str();
        if is_feature_upstream(caller.0) && self.visited.find(id).is_none() {
            let ghost joined = self.members@;
            self.visited.add(id);
            let entry = member(&caller.1);
            self.members.push(entry);
            assert(members_view(seq![entry])[0] == member_of(caller.1));
            assert(members_view(self.members@) =~= members_view(joined).push(
                member_of(caller.1),
            ));
        }
    }
}

/// The places of the members in the order they are shown: by group, then by place in the source.
pub open spec fn member_order(members: Seq<MemberView>) -> Seq<usize> {
    arranged(
        counting(members.len()),
        members.map_values(
            |member: MemberView|
                seq![
                    PartView::Number(member.category),
                    PartView::Text(member.path),
                    PartView::Number(member.line),
                ],
        ),
    )
}

/// The first `count` members in this order, each group under its label.
pub open spec fn member_lines(members: Seq<MemberView>, order: Seq<usize>, count: int) -> Seq<char>
    decreases count,
{
    if count <= 0 {
        ""@
    } else {
        let member = members[order[count - 1] as int];
        member_lines(members, order, count - 1) + (if count == 1 || members[order[count - 2] as int].category
            != member.category {
            "  "@ + feature_label(member.category) + ":\n"@
        } else {
            ""@
        }) + member.text
    }
}

/// How many of the definitions that share a name are listed.
pub const SHOWN_MAX: usize = 12;

/// The first `count` nodes, one per line behind two spaces.
pub open spec fn indented_nodes(nodes: Seq<Node>, count: int) -> Seq<char>
    decreases count,
{
    if count <= 0 {
        ""@
    } else {
        indented_nodes(nodes, count - 1) + "  "@ + node_line_spec(nodes[count - 1]) + "\n"@
    }
}

/// What is said of a name that too many definitions share.
pub open spec fn disambiguation(symbol: Seq<char>, seeds: Seq<Node>) -> Seq<char> {
    quoted(symbol) + " names "@ + decimal_spec(seeds.len()) + " definitions across "@
        + decimal_spec(
        distinct(node_projects(seeds), seeds.len() as int).len(),
    )
        + " project(s): too many to slice as one feature. Name one to slice it (pass the file::name shown):\n"@
        + indented_nodes(seeds, smaller(seeds.len() as int, SHOWN_MAX as int)) + if seeds.len()
        > SHOWN_MAX {
        "  (+"@ + decimal_spec((seeds.len() - SHOWN_MAX) as nat) + " more; `search` "@ + quoted(
            symbol,
        ) + " to list all)\n"@
    } else {
        ""@
    }
}

/// The vertical slice of a feature, from a finished walk.
pub open spec fn feature_text_spec(
    symbol: Seq<char>,
    nodes: Seq<Node>,
    walk: FeatureView,
) -> Seq<char> {
    let seeds = slice_seeds(nodes);
    let members = walk.members.take(
        smaller(walk.members.len() as int, FEATURE_NODES_MAX as int),
    );
    if seeds.len() == 0 {
        "no model/view/route/template/class named "@ + quoted(symbol) + " to slice"@
    } else if seeds.len() > FEATURE_SEED_DISAMBIGUATION_MAX {
        disambiguation(symbol, seeds)
    } else {
        "feature slice for "@ + quoted(symbol) + " ("@ + decimal_spec(members.len())
            + " symbols):\n"@ + member_lines(members, member_order(members), members.len() as int)
    }
}

fn feature_disambiguation(symbol: &str, nodes: &[Node], positions: &[usize]) -> (text: String)
    requires
        forall|k: int| 0 <= k < positions@.len() ==> #[trigger] positions@[k] < nodes@.len(),
    ensures
        text@ == disambiguation(symbol@, nodes_at(nodes@, positions@)),
{
    let ghost seeds = nodes_at(nodes@, positions@);
    let mut projects = KeyIndex::new();
    for i in 0..positions.len()
        invariant
            forall|k: int| 0 <= k < positions@.len() ==> #[trigger] positions@[k] < nodes@.len(),
            seeds == nodes_at(nodes@, positions@),
            projects.wf(),
            projects@ == distinct(node_projects(seeds), i as int),
    {
        assert(positions@[i as int] < nodes@.len());
        assert(node_projects(seeds)[i as int] == nodes@[positions@[i as int] as int].project_id@);
        let project = nodes[positions[i]].project_id.as_str();
        if projects.find(project).is_none() {
            projects.add(project);
        }
    }
    let shown: usize = if positions.len() <= SHOWN_MAX {
        positions.len()
    } else {
        SHOWN_MAX
    };
    let mut listed = copy("");
    for i in 0..shown
        invariant
            shown <= positions@.len(),
            forall|k: int| 0 <= k < positions@.len() ==> #[trigger] positions@[k] < nodes@.len(),
            seeds == nodes_at(nodes@, positions@),
            listed@ == indented_nodes(seeds, i as int),
    {
        assert(positions@[i as int] < nodes@.len());
        assert(seeds[i as int] == nodes@[positions@[i as int] as int]);
        listed.append("  ");
        listed.append(node_line(&nodes[positions[i]]).as_str());
        listed.append("\n");
    }
    let mut text = cat4(
        quote(symbol).as_str(),
        " names ",
        decimal_usize(positions.len()).as_str(),
        " definitions across ",
    );
    text.append(decimal_usize(projects.len()).as_str());
    text.append(
        " project(s): too many to slice as one feature. Name one to slice it (pass the file::name shown):\n",
    );
    text.append(listed.as_str());
    let more = if positions.len() > SHOWN_MAX {
        let mut more = cat4(
            "  (+",
            decimal_usize(positions.len() - SHOWN_MAX).as_str(),
            " more; `search` ",
            quote(symbol).as_str(),
        );
        more.append(" to list all)\n");
        more
    } else {
        copy("")
    };
    text.append(more.as_str());
    text
}

fn order_members(members: &[Member]) -> (order: Vec<usize>)
    ensures
        order@ == member_order(members_view(members@)),
        order@.len() == members@.len(),
        forall|k: int| 0 <= k < order@.len() ==> #[trigger] order@[k] < members@.len(),
{
    let ghost all = members_view(members@);
    let ghost wanted = all.map_values(
        |member: MemberView|
            seq![
                PartView::Number(member.category),
                PartView::Text(member.path),
                PartView::Number(member.line),
            ],
    );
    let mut numbers: Vec<usize> = Vec::new();
    let mut keys: Vec<Vec<Part>> = Vec::new();
    for i in 0..members.len()
        invariant
            all == members_view(members@),
            wanted == all.map_values(
                |member: MemberView|
                    seq![
                        PartView::Number(member.category),
                        PartView::Text(member.path),
                        PartView::Number(member.line),
                    ],
            ),
            keys_view(keys@) == wanted.take(i as int),
            numbers@.len() == i,
            forall|k: int| 0 <= k < i ==> #[trigger] numbers@[k] == k,
    {
        let ghost before = keys@;
        let mut key: Vec<Part> = Vec::new();
        key.push(Part::Number(members[i].category as i128));
        key.push(Part::Text(members[i].path.clone()));
        key.push(Part::Number(members[i].line as i128));
        assert(key_view(key) =~= wanted[i as int]);
        keys.push(key);
        numbers.push(i);
        assert(keys_view(keys@) =~= keys_view(before).push(wanted[i as int]));
        assert(wanted.take(i + 1) =~= wanted.take(i as int).push(wanted[i as int]));
    }
    assert(wanted.take(members@.len() as int) =~= wanted);
    assert(keys@.len() == keys_view(keys@).len());
    assert(numbers@ =~= counting(members@.len()));
    let order = arrange(numbers.as_slice(), &keys);
    assert forall|k: int| 0 <= k < order@.len() implies #[trigger] order@[k] < members@.len() by {
        assert(numbers@.contains(order@[k]));
    }
    order
}

/// The vertical slice of a feature, from a walk that needs nothing more: from a route, view,
/// template, or model, the whole request and data path in one grouped digest. A name that too many
/// definitions share is answered with how to name one of them.
pub fn feature_text(symbol: &str, nodes: &[Node], walk: &FeatureWalk) -> (text: String)
    ensures
        text@ == feature_text_spec(symbol@, nodes@, walk@),
{
    let positions = seed_positions(nodes);
    assert(slice_seeds(nodes@).len() == positions@.len());
    if positions.len() == 0 {
        return cat3(
            "no model/view/route/template/class named ",
            quote(symbol).as_str(),
            " to slice",
        );
    }
    if positions.len() > FEATURE_SEED_DISAMBIGUATION_MAX {
        return feature_disambiguation(symbol, nodes, positions.as_slice());
    }
    assert(walk@.members.len() == walk.members@.len());
    let kept: usize = if walk.members.len() <= FEATURE_NODES_MAX {
        walk.members.len()
    } else {
        FEATURE_NODES_MAX
    };
    let members = vstd::slice::slice_subrange(walk.members.as_slice(), 0, kept);
    let ghost all = members_view(members@);
    assert(all =~= walk@.members.take(kept as int));
    let order = order_members(members);
    let mut listed = copy("");
    for i in 0..order.len()
        invariant
            all == members_view(members@),
            order@.len() == members@.len(),
            forall|k: int| 0 <= k < order@.len() ==> #[trigger] order@[k] < members@.len(),
            listed@ == member_lines(all, order@, i as int),
    {
        assert(order@[i as int] < members@.len());
        let entry = &members[order[i]];
        assert(all[order@[i as int] as int].text == entry.text@);
        let fresh: bool = if i == 0 {
            true
        } else {
            assert(order@[i - 1] < members@.len());
            assert(all[order@[i - 1] as int].category == members@[order@[i - 1] as int].category);
            members[order[i - 1]].category != entry.category
        };
        let heading = if fresh {
            cat3("  ", label_of(entry.category), ":\n")
        } else {
            copy("")
        };
        listed.append(heading.as_str());
        listed.append(entry.text.as_str());
    }
    let mut text = cat4(
        "feature slice for ",
        quote(symbol).as_str(),
        " (",
        decimal_usize(members.len()).as_str(),
    );
    text.append(" symbols):\n");
    text.append(listed.as_str());
    text
}

/// Reading a symbol takes no symbol into the slice twice: the ids seen stay distinct, and each id
/// added is one member added.
pub proof fn law_slice_members_are_distinct(
    walk: FeatureView,
    callees: Seq<(EdgeKind, Node)>,
    callers: Seq<(EdgeKind, Node)>,
)
    requires
        ids_distinct(walk.visited),
    ensures
        ({
            let after = feature_step(walk, callees, callers);
            ids_distinct(after.visited) && after.members.len() - walk.members.len()
                == after.visited.len() - walk.visited.len()
        }),
{
    let start = FeatureView { frontier: walk.frontier.drop_last(), ..walk };
    let from = walk.frontier.last();
    lemma_met_distinct(start, from, callees, callees.len() as int);
    let down = feature_met_all(start, from, callees, callees.len() as int);
    lemma_entries_distinct(down, callers, callers.len() as int);
}

/// No two of the ids are equal.
pub open spec fn ids_distinct(ids: Seq<Seq<char>>) -> bool {
    forall|i: int, j: int| 0 <= i < j < ids.len() ==> #[trigger] ids[i] != #[trigger] ids[j]
}

proof fn lemma_met_distinct(
    walk: FeatureView,
    from: ReachView,
    callees: Seq<(EdgeKind, Node)>,
    count: int,
)
    requires
        ids_distinct(walk.visited),
    ensures
        ({
            let after = feature_met_all(walk, from, callees, count);
            ids_distinct(after.visited) && after.members.len() - walk.members.len()
                == after.visited.len() - walk.visited.len()
        }),
    decreases count,
{
    if count > 0 {
        lemma_met_distinct(walk, from, callees, count - 1);
        let before = feature_met_all(walk, from, callees, count - 1);
        lemma_key_at(before.visited, callees[count - 1].1.id@, 0);
    }
}

proof fn lemma_entries_distinct(walk: FeatureView, callers: Seq<(EdgeKind, Node)>, count: int)
    requires
        ids_distinct(walk.visited),
    ensures
        ({
            let after = entries_met(walk, callers, count);
            ids_distinct(after.visited) && after.members.len() - walk.members.len()
                == after.visited.len() - walk.visited.len()
        }),
    decreases count,
{
    if count > 0 {
        lemma_entries_distinct(walk, callers, count - 1);
        let before = entries_met(walk, callers, count - 1);
        lemma_key_at(before.visited, callers[count - 1].1.id@, 0);
    }
}

// ---------------------------------------------------------------------------
// What a feature is made of

/// The relations that lead from one layer of a feature to the next.
pub open spec fn leads_on(kind: EdgeKind) -> bool {
    ||| kind is Extends
    ||| kind is ExtendsTemplate
    ||| kind is Handles
    ||| kind is IncludesTemplate
    ||| kind is Instantiates
    ||| kind is Receives
    ||| kind is RelatesTo
    ||| kind is Renders
    ||| kind is Resolves
    ||| kind is RoutesTo
}

/// The relations of the request chain, which are followed further.
pub open spec fn chains_on(kind: EdgeKind) -> bool {
    ||| kind is ExtendsTemplate
    ||| kind is IncludesTemplate
    ||| kind is Renders
    ||| kind is RoutesTo
}

/// A symbol of the data layer: a model, or one that plays the part of a service, a queryset, a form
/// or a serializer.
pub open spec fn holds_data(node: Node) -> bool {
    ||| node.kind is Model
    ||| role_spec(node) == Some("form"@)
    ||| role_spec(node) == Some("queryset"@)
    ||| role_spec(node) == Some("serializer"@)
    ||| role_spec(node) == Some("service"@)
}

/// A callee belongs in the slice of whoever is read.
pub open spec fn belongs(from: ReachView, callee: (EdgeKind, Node)) -> bool {
    leads_on(callee.0) || (from.data_layer && callee.0 is Calls && holds_data(callee.1))
}

/// One of the first `count` callees belongs in the slice and goes by this id.
pub open spec fn led_to(
    from: ReachView,
    callees: Seq<(EdgeKind, Node)>,
    count: int,
    id: Seq<char>,
) -> bool {
    exists|i: int|
        0 <= i < count && belongs(from, #[trigger] callees[i]) && callees[i].1.id@ == id
}

/// One of the first `count` callers routes to a seed, renders it or relates to it, and goes by this
/// id.
pub open spec fn entered_by(callers: Seq<(EdgeKind, Node)>, count: int, id: Seq<char>) -> bool {
    exists|i: int|
        0 <= i < count && ((#[trigger] callers[i]).0 is RoutesTo || callers[i].0 is Renders
            || callers[i].0 is RelatesTo) && callers[i].1.id@ == id
}

/// One of the first `count` callees stands behind a relation of the request chain, not too deep, and
/// is to be read.
pub open spec fn chained_to(
    from: ReachView,
    callees: Seq<(EdgeKind, Node)>,
    count: int,
    next: ReachView,
) -> bool {
    exists|i: int|
        0 <= i < count && chains_on((#[trigger] callees[i]).0) && callees[i].1.id@ == next.id
            && next.depth == from.depth + 1 && next.depth < FEATURE_DEPTH_MAX && (next.data_layer
            <==> callees[i].0 is RoutesTo)
}

proof fn lemma_no_model_role(node: Node)
    ensures
        role_spec(node) == Some("model"@) ==> node.kind is Model,
{
    reveal_strlit("route");
    reveal_strlit("template");
    reveal_strlit("css-selector");
    reveal_strlit("model");
    reveal_strlit("test");
    reveal_strlit("queryset");
    reveal_strlit("service");
    reveal_strlit("form");
    reveal_strlit("serializer");
    reveal_strlit("admin");
    reveal_strlit("choices");
    reveal_strlit("json-view");
    reveal_strlit("form-view");
    reveal_strlit("page-view");
    reveal_strlit("template-view");
    reveal_strlit("view");
    reveal_strlit("factory");
    assert("model"@.len() == 5 && "model"@[0] == 'm');
    assert("admin"@[0] == 'a');
}

proof fn lemma_callees_met(
    walk: FeatureView,
    from: ReachView,
    callees: Seq<(EdgeKind, Node)>,
    count: int,
)
    requires
        0 <= count <= callees.len(),
    ensures
        ({
            let after = feature_met_all(walk, from, callees, count);
            &&& walk.visited.is_prefix_of(after.visited)
            &&& walk.frontier.is_prefix_of(after.frontier)
            &&& after.members.len() - walk.members.len() == after.visited.len()
                - walk.visited.len()
            &&& after.members.len() < FEATURE_NODES_MAX ==> forall|i: int|
                0 <= i < count && belongs(from, #[trigger] callees[i]) ==> after.visited.contains(
                    callees[i].1.id@,
                )
            &&& forall|k: int|
                walk.visited.len() <= k < after.visited.len() ==> led_to(from, callees, count, #[trigger] after.visited[k])
            &&& forall|k: int|
                walk.frontier.len() <= k < after.frontier.len() ==> chained_to(from, callees, count, #[trigger] after.frontier[k])
        }),
    decreases count,
{
    assert(walk.visited =~= walk.visited.subrange(0, walk.visited.len() as int));
    assert(walk.frontier =~= walk.frontier.subrange(0, walk.frontier.len() as int));
    if count > 0 {
        lemma_callees_met(walk, from, callees, count - 1);
        let before = feature_met_all(walk, from, callees, count - 1);
        let after = feature_met_all(walk, from, callees, count);
        let callee = callees[count - 1];
        lemma_no_model_role(callee.1);
        lemma_key_at(before.visited, callee.1.id@, 0);
        assert(belongs(from, callee) == (feature_downstream(callee.0) || (from.data_layer
            && callee.0 == EdgeKind::Calls && feature_call_target(callee.1))));
        assert(chains_on(callee.0) == feature_chain(callee.0));
        assert(forall|k: int| 0 <= k < before.visited.len() ==> #[trigger] after.visited[k]
            == before.visited[k]);
        assert(forall|k: int| 0 <= k < before.frontier.len() ==> #[trigger] after.frontier[k]
            == before.frontier[k]);
        assert(walk.visited =~= after.visited.subrange(0, walk.visited.len() as int));
        assert(walk.frontier =~= after.frontier.subrange(0, walk.frontier.len() as int));
        if after.members.len() < FEATURE_NODES_MAX {
            assert forall|i: int| 0 <= i < count && belongs(from, #[trigger] callees[i]) implies
                after.visited.contains(callees[i].1.id@) by {
                if i < count - 1 {
                    assert(before.visited.contains(callees[i].1.id@));
                    let k = choose|k: int|
                        0 <= k < before.visited.len() && before.visited[k] == callees[i].1.id@;
                    assert(after.visited[k] == callees[i].1.id@);
                } else if key_at(before.visited, callee.1.id@, 0) is Some {
                    assert(after.visited[key_at(before.visited, callee.1.id@, 0)->0]
                        == callee.1.id@);
                } else {
                    assert(after.visited[after.visited.len() - 1] == callee.1.id@);
                }
            }
        }
        assert forall|k: int| walk.visited.len() <= k < after.visited.len() implies led_to(from, callees, count, #[trigger] after.visited[k]) by {
            if k < before.visited.len() {
                assert(before.visited[k] == after.visited[k]);
            } else {
                assert(belongs(from, callees[count - 1]));
            }
        }
        assert forall|k: int| walk.frontier.len() <= k < after.frontier.len() implies chained_to(from, callees, count, #[trigger] after.frontier[k]) by {
            if k < before.frontier.len() {
                assert(before.frontier[k] == after.frontier[k]);
            } else {
                assert(chains_on(callees[count - 1].0));
                assert(after.frontier[k].depth == from.depth + 1);
            }
        }
    }
}

proof fn lemma_callers_met(walk: FeatureView, callers: Seq<(EdgeKind, Node)>, count: int)
    requires
        0 <= count <= callers.len(),
    ensures
        ({
            let after = entries_met(walk, callers, count);
            &&& walk.visited.is_prefix_of(after.visited)
            &&& after.frontier == walk.frontier
            &&& after.members.len() - walk.members.len() == after.visited.len()
                - walk.visited.len()
            &&& forall|i: int|
                0 <= i < count && ((#[trigger] callers[i]).0 is RoutesTo || callers[i].0 is Renders
                    || callers[i].0 is RelatesTo) ==> after.visited.contains(callers[i].1.id@)
            &&& forall|k: int|
                walk.visited.len() <= k < after.visited.len() ==> entered_by(callers, count, #[trigger] after.visited[k])
        }),
    decreases count,
{
    assert(walk.visited =~= walk.visited.subrange(0, walk.visited.len() as int));
    if count > 0 {
        lemma_callers_met(walk, callers, count - 1);
        let before = entries_met(walk, callers, count - 1);
        let after = entries_met(walk, callers, count);
        let caller = callers[count - 1];
        lemma_key_at(before.visited, caller.1.id@, 0);
        assert(forall|k: int| 0 <= k < before.visited.len() ==> #[trigger] after.visited[k]
            == before.visited[k]);
        assert(walk.visited =~= after.visited.subrange(0, walk.visited.len() as int));
        assert forall|i: int|
            0 <= i < count && ((#[trigger] callers[i]).0 is RoutesTo || callers[i].0 is Renders
                || callers[i].0 is RelatesTo) implies after.visited.contains(callers[i].1.id@) by {
            if i < count - 1 {
                assert(before.visited.contains(callers[i].1.id@));
                let k = choose|k: int|
                    0 <= k < before.visited.len() && before.visited[k] == callers[i].1.id@;
                assert(after.visited[k] == callers[i].1.id@);
            } else if key_at(before.visited, caller.1.id@, 0) is Some {
                assert(after.visited[key_at(before.visited, caller.1.id@, 0)->0] == caller.1.id@);
            } else {
                assert(after.visited[after.visited.len() - 1] == caller.1.id@);
            }
        }
        assert forall|k: int| walk.visited.len() <= k < after.visited.len() implies entered_by(callers, count, #[trigger] after.visited[k]) by {
            if k < before.visited.len() {
                assert(before.visited[k] == after.visited[k]);
            } else {
                assert(callers[count - 1].1.id@ == after.visited[k]);
            }
        }
    }
}

/// Reading a symbol takes in whatever its feature is made of: as long as the slice is not full,
/// everything that a relation of the feature leads to, and what it calls of the data layer where
/// it is a seed or the view of a route; and for a seed whoever routes to it, renders it or relates
/// to it. Nothing else is taken in. What a relation of the request chain led to, up to the depth
/// that is followed, and nothing else, is to be read next.
pub proof fn law_a_slice_holds_what_its_feature_is_made_of(
    walk: FeatureView,
    callees: Seq<(EdgeKind, Node)>,
    callers: Seq<(EdgeKind, Node)>,
)
    requires
        walk.frontier.len() > 0,
    ensures
        ({
            let from = walk.frontier.last();
            let after = feature_step(walk, callees, callers);
            &&& after.members.len() - walk.members.len() == after.visited.len()
                - walk.visited.len()
            &&& after.members.len() < FEATURE_NODES_MAX ==> forall|i: int|
                0 <= i < callees.len() && belongs(from, #[trigger] callees[i])
                    ==> after.visited.contains(callees[i].1.id@)
            &&& from.depth == 0 ==> forall|i: int|
                0 <= i < callers.len() && ((#[trigger] callers[i]).0 is RoutesTo
                    || callers[i].0 is Renders || callers[i].0 is RelatesTo)
                    ==> after.visited.contains(callers[i].1.id@)
            &&& forall|k: int|
                walk.visited.len() <= k < after.visited.len() ==> led_to(from, callees, callees.len() as int, #[trigger] after.visited[k]) || (from.depth == 0 && entered_by(callers, callers.len() as int, after.visited[k]))
            &&& walk.frontier.drop_last().is_prefix_of(after.frontier)
            &&& forall|k: int|
                walk.frontier.len() - 1 <= k < after.frontier.len() ==> chained_to(from, callees, callees.len() as int, #[trigger] after.frontier[k])
        }),
{
    let from = walk.frontier.last();
    let start = FeatureView { frontier: walk.frontier.drop_last(), ..walk };
    let down = feature_met_all(start, from, callees, callees.len() as int);
    let after = feature_step(walk, callees, callers);
    lemma_callees_met(start, from, callees, callees.len() as int);
    if from.depth == 0 {
        lemma_callers_met(down, callers, callers.len() as int);
    }
    assert(down.visited =~= after.visited.subrange(0, down.visited.len() as int));
    assert(forall|k: int| 0 <= k < down.visited.len() ==> #[trigger] after.visited[k]
        == down.visited[k]);
    if after.members.len() < FEATURE_NODES_MAX {
        assert forall|i: int|
            0 <= i < callees.len() && belongs(from, #[trigger] callees[i]) implies after.visited.contains(
        callees[i].1.id@) by {
            assert(down.visited.contains(callees[i].1.id@));
            let k = choose|k: int|
                0 <= k < down.visited.len() && down.visited[k] == callees[i].1.id@;
            assert(after.visited[k] == callees[i].1.id@);
        }
    }
    assert forall|k: int| walk.visited.len() <= k < after.visited.len() implies led_to(from, callees, callees.len() as int, #[trigger] after.visited[k]) || (from.depth == 0 && entered_by(callers, callers.len() as int, after.visited[k])) by {
        if k < down.visited.len() {
            assert(down.visited[k] == after.visited[k]);
        }
    }
}

/// What the request chain leads to for the first time is read next, up to the depth that is
/// followed.
pub proof fn law_the_request_chain_is_followed(
    walk: FeatureView,
    from: ReachView,
    callee: (EdgeKind, Node),
)
    requires
        walk.members.len() < FEATURE_NODES_MAX,
        chains_on(callee.0),
        !walk.visited.contains(callee.1.id@),
        from.depth + 1 < FEATURE_DEPTH_MAX,
    ensures
        feature_met(walk, from, callee).frontier == walk.frontier.push(
            (ReachView {
                id: callee.1.id@,
                depth: from.depth + 1,
                data_layer: callee.0 is RoutesTo,
            }),
        ),
{
    lemma_key_at(walk.visited, callee.1.id@, 0);
    assert(feature_downstream(callee.0));
}

/// A feature can be sliced from a route, a view, a template, a model, a class, a function or a
/// method, and from nothing else; and every such definition of the name is a seed.
pub proof fn law_every_layer_can_be_sliced_from(nodes: Seq<Node>, at: int)
    requires
        nodes.len() <= usize::MAX,
        0 <= at < nodes.len(),
    ensures
        slice_positions(nodes, nodes.len() as int).contains(at as usize) <==> {
            let kind = nodes[at].kind;
            ||| kind is Class
            ||| kind is Function
            ||| kind is Method
            ||| kind is Model
            ||| kind is Route
            ||| kind is Template
            ||| kind is View
        },
{
    lemma_slice_positions(nodes, nodes.len() as int, at);
}

proof fn lemma_slice_positions(nodes: Seq<Node>, count: int, at: int)
    requires
        0 <= count <= nodes.len() <= usize::MAX,
        0 <= at < nodes.len(),
    ensures
        slice_positions(nodes, count).contains(at as usize) <==> at < count && sliceable(
            nodes[at].kind,
        ),
    decreases count,
{
    if count > 0 {
        lemma_slice_positions(nodes, count - 1, at);
        let before = slice_positions(nodes, count - 1);
        let after = slice_positions(nodes, count);
        if before.contains(at as usize) {
            let k = choose|k: int| 0 <= k < before.len() && before[k] == at as usize;
            assert(after[k] == at as usize);
        }
        if after.contains(at as usize) {
            let k = choose|k: int| 0 <= k < after.len() && after[k] == at as usize;
            if k < before.len() {
                assert(before[k] == at as usize);
            }
        }
        if at == count - 1 && sliceable(nodes[at].kind) {
            assert(after[after.len() - 1] == at as usize);
        }
    }
}

/// A slice lists the layers from the request down: routes, then views, templates, models, classes,
/// functions, and whatever else; each by file and line.
pub proof fn law_a_slice_lists_its_layers_in_order(members: Seq<MemberView>, a: int, b: int)
    requires
        0 <= a < b < members.len(),
        members.len() <= usize::MAX,
    ensures
        ({
            let order = member_order(members);
            let (first, second) = (members[order[a] as int], members[order[b] as int]);
            &&& first.category <= second.category
            &&& first.category == second.category ==> !text_less(second.path, first.path)
            &&& first.category == second.category && first.path == second.path ==> first.line
                <= second.line
        }),
{
    let keys = members.map_values(
        |member: MemberView|
            seq![
                PartView::Number(member.category),
                PartView::Text(member.path),
                PartView::Number(member.line),
            ],
    );
    law_arranging_sorts(keys, a, b);
    let (i, j) = (sorted_order(keys)[a], sorted_order(keys)[b]);
    let (left, right) = (keys[i], keys[j]);
    let order = member_order(members);
    assert(order[a] == i && order[b] == j);
    lemma_not_after(left, right);
    if left[0] == right[0] {
        lemma_not_after(left.skip(1), right.skip(1));
        if left.skip(1)[0] == right.skip(1)[0] {
            lemma_not_after(left.skip(1).skip(1), right.skip(1).skip(1));
        }
    }
}

/// The layer of a symbol in a slice follows its kind, and the layers are told apart by their labels.
pub proof fn law_layers_are_told_apart(left: NodeKind, right: NodeKind)
    ensures
        left is Route ==> feature_label(category_spec(left)) == "routes"@,
        left is View ==> feature_label(category_spec(left)) == "views"@,
        left is Template ==> feature_label(category_spec(left)) == "templates"@,
        left is Model ==> feature_label(category_spec(left)) == "models"@,
        left is Class ==> feature_label(category_spec(left)) == "classes"@,
        left is Function || left is Method ==> feature_label(category_spec(left)) == "functions"@,
        left is Route && !(right is Route) ==> category_spec(left) < category_spec(right),
        left is View && !(right is Route || right is View) ==> category_spec(left) < category_spec(
            right,
        ),
        left is Template && !(right is Route || right is View || right is Template)
            ==> category_spec(left) < category_spec(right),
{
}

} // verus!
