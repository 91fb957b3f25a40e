//! What a change reaches, and what nothing reaches.
use crate::chars::{
    cat2, cat3, cat4, copy, law_a_text_is_cut_at_the_last, quote, quoted, rsplit_once,
    rsplit_once_spec, views,
};
use crate::cursor::{next_text, next_text_line, note_line, note_text, slice, slice_spec, Page};
use crate::fx::{texts_contains, texts_held, texts_insert, texts_new};
use crate::graph::{find_project, project_named, EdgeKind, Node, NodeKind, Project};
use crate::keys::{distinct, key_at, lemma_distinct, lemma_key_at, KeyIndex};
use crate::limits::{
    IMPACT_DEPTH_MAX, IMPACT_LEVEL_LINES_MAX, IMPACT_LINES_MAX, IMPACT_NODES_MAX, ORPHAN_SCAN_MAX,
    SUBCLASS_HOPS_MAX, TESTS_SYMBOLS_MAX,
};
use crate::numbers::{
    self, decimal_spec, decimal_u128, decimal_u32, decimal_usize, lemma_indices,
};
use crate::order::{
    arrange, arranged, key_view, keys_view, law_arranging_keeps_the_items, law_arranging_sorts,
    lemma_not_after, lemma_sorted_order, sorted_order, Part, PartView,
};
use crate::rank::{
    edge_rank, edge_rank_spec, law_what_leads_is_listed_first, leads, listing_key_spec,
    push_listing_key,
};
use crate::render::{
    dedup_related, dedup_spec, kind_labels, node_line, node_line_spec, rows_view, summarize_kinds,
    tally_text,
};
use crate::symbols::{coverage_checkable, is_coverage_checkable, targetable_name, targetable_spec};
use crate::tools::search::{listing_sorted, sort_listing};
use rustc_hash::FxHashSet;
use vstd::prelude::*;

verus! {

// ---------------------------------------------------------------------------
// Blast radius

/// An incoming edge along which a change propagates.
pub open spec fn reach_edge(kind: EdgeKind) -> bool {
    match kind {
        EdgeKind::Calls
        | EdgeKind::Decorates
        | EdgeKind::Extends
        | EdgeKind::ExtendsTemplate
        | EdgeKind::Handles
        | EdgeKind::Imports
        | EdgeKind::IncludesTemplate
        | EdgeKind::Instantiates
        | EdgeKind::Overrides
        | EdgeKind::OverridesTemplate
        | EdgeKind::Receives
        | EdgeKind::References
        | EdgeKind::Renders
        | EdgeKind::Resolves
        | EdgeKind::RoutesTo => true,
        _ => false,
    }
}

/// Whether an incoming edge means this symbol's behavior is reached through the caller, the
/// relation a blast radius keeps expanding along. A schema relation, a type mention, or a
/// template or attribute association is a fact about the neighborhood, not a path a change
/// propagates down.
pub fn is_reach_edge(kind: EdgeKind) -> (reach: bool)
    ensures
        reach == reach_edge(kind),
{
    match kind {
        EdgeKind::Calls
        | EdgeKind::Decorates
        | EdgeKind::Extends
        | EdgeKind::ExtendsTemplate
        | EdgeKind::Handles
        | EdgeKind::Imports
        | EdgeKind::IncludesTemplate
        | EdgeKind::Instantiates
        | EdgeKind::Overrides
        | EdgeKind::OverridesTemplate
        | EdgeKind::Receives
        | EdgeKind::References
        | EdgeKind::Renders
        | EdgeKind::Resolves
        | EdgeKind::RoutesTo => true,
        _ => false,
    }
}

/// The ids of the nodes.
pub open spec fn node_ids(nodes: Seq<Node>) -> Seq<Seq<char>> {
    nodes.map_values(|node: Node| node.id@)
}

/// What a walk over the callers of a symbol has seen so far.
#[verifier::ext_equal]
pub struct ImpactView {
    /// The ids seen, the seeds' own among them.
    pub visited: Seq<Seq<char>>,
    /// The ids whose callers the next level asks for.
    pub frontier: Seq<Seq<char>>,
    /// The rows to list.
    pub rows: Seq<Seq<char>>,
    pub level: int,
    /// The rows of the current level.
    pub printed_here: int,
    pub omitted: int,
    pub tests_omitted: int,
    pub reached: int,
    pub associated: int,
    /// The walk came to its cap on nodes.
    pub truncated: bool,
}

/// The walk before its first level.
pub open spec fn impact_start(seeds: Seq<Node>) -> ImpactView {
    ImpactView {
        visited: distinct(node_ids(seeds), seeds.len() as int),
        frontier: node_ids(seeds),
        rows: Seq::empty(),
        level: 0,
        printed_here: 0,
        omitted: 0,
        tests_omitted: 0,
        reached: 0,
        associated: 0,
        truncated: false,
    }
}

/// The row of a caller found at a level.
pub open spec fn impact_row(level: int, caller: (EdgeKind, Node)) -> Seq<char> {
    "L"@ + decimal_spec(level as nat) + " ["@ + caller.0.label() + "] "@ + node_line_spec(caller.1)
}

/// The walk once it has met one more caller. A caller from a test file is only counted; one
/// already seen changes nothing; a new one past the cap stops the walk. A caller that the change
/// propagates to is expanded at the next level; any other is listed at the first level only.
pub open spec fn impact_met(walk: ImpactView, caller: (EdgeKind, Node)) -> ImpactView {
    if walk.truncated {
        walk
    } else if caller.1.in_test_file {
        ImpactView { tests_omitted: walk.tests_omitted + 1, ..walk }
    } else if walk.visited.len() >= IMPACT_NODES_MAX {
        ImpactView { truncated: true, ..walk }
    } else if key_at(walk.visited, caller.1.id@, 0) is Some {
        walk
    } else {
        let reach = reach_edge(caller.0);
        let seen = ImpactView {
            visited: walk.visited.push(caller.1.id@),
            frontier: if reach {
                walk.frontier.push(caller.1.id@)
            } else {
                walk.frontier
            },
            reached: walk.reached + if reach {
                1int
            } else {
                0
            },
            associated: walk.associated + if reach {
                0int
            } else {
                1
            },
            ..walk
        };
        if !reach && walk.level > 1 {
            seen
        } else if walk.rows.len() < IMPACT_LINES_MAX && walk.printed_here
            < IMPACT_LEVEL_LINES_MAX {
            ImpactView {
                rows: seen.rows.push(impact_row(walk.level, caller)),
                printed_here: seen.printed_here + 1,
                ..seen
            }
        } else {
            ImpactView { omitted: seen.omitted + 1, ..seen }
        }
    }
}

/// The walk once it has met the first `count` of the callers at these positions.
pub open spec fn impact_met_all(
    walk: ImpactView,
    callers: Seq<(EdgeKind, Node)>,
    order: Seq<usize>,
    count: int,
) -> ImpactView
    decreases count,
{
    if count <= 0 {
        walk
    } else {
        impact_met(
            impact_met_all(walk, callers, order, count - 1),
            callers[order[count - 1] as int],
        )
    }
}

/// A caller that belongs in a blast radius: not the container of the symbol, and not a file, whose
/// import only repeats the symbol inside it that does the calling.
pub open spec fn impact_relevant(caller: (EdgeKind, Node)) -> bool {
    caller.0 != EdgeKind::Contains && caller.1.kind != NodeKind::File
}

/// The positions of the relevant ones of the first `count` callers.
pub open spec fn relevant_callers(callers: Seq<(EdgeKind, Node)>, count: int) -> Seq<usize>
    decreases count,
{
    if count <= 0 {
        Seq::empty()
    } else if impact_relevant(callers[count - 1]) {
        relevant_callers(callers, count - 1).push((count - 1) as usize)
    } else {
        relevant_callers(callers, count - 1)
    }
}

/// The order of callers within a level: the strongest edge first, a caller from outside the
/// seeds' projects ahead of one inside them, then the listing order.
pub open spec fn impact_key(caller: (EdgeKind, Node), homes: Set<Seq<char>>) -> Seq<PartView> {
    seq![
        PartView::Number(edge_rank_spec(caller.0)),
        PartView::Number(
            if homes.contains(caller.1.project_id@) {
                1
            } else {
                0
            },
        ),
    ] + listing_key_spec(caller.1)
}

/// The callers of one level in the order the walk meets them.
pub open spec fn impact_order(callers: Seq<(EdgeKind, Node)>, homes: Set<Seq<char>>) -> Seq<usize> {
    let relevant = relevant_callers(callers, callers.len() as int);
    arranged(relevant, relevant.map_values(|p: usize| impact_key(callers[p as int], homes)))
}

/// The walk after one more level, given the callers of its frontier.
pub open spec fn impact_level(
    walk: ImpactView,
    homes: Set<Seq<char>>,
    callers: Seq<(EdgeKind, Node)>,
) -> ImpactView {
    let order = impact_order(callers, homes);
    impact_met_all(
        ImpactView { frontier: Seq::empty(), level: walk.level + 1, printed_here: 0, ..walk },
        callers,
        order,
        order.len() as int,
    )
}

/// The projects of the first `count` nodes.
pub open spec fn home_projects(seeds: Seq<Node>, count: int) -> Set<Seq<char>>
    decreases count,
{
    if count <= 0 {
        Set::empty()
    } else {
        home_projects(seeds, count - 1).insert(seeds[count - 1].project_id@)
    }
}

/// A breadth-first walk over the callers of a symbol. One level at a time, it says whose callers
/// it needs and takes them in.
pub struct ImpactWalk {
    visited: KeyIndex,
    frontier: Vec<String>,
    rows: Vec<String>,
    homes: FxHashSet<String>,
    level: u32,
    printed_here: usize,
    omitted: u128,
    tests_omitted: u128,
    reached: usize,
    associated: usize,
    truncated: bool,
}

impl View for ImpactWalk {
    type V = ImpactView;

    closed spec fn view(&self) -> ImpactView {
        ImpactView {
            visited: self.visited@,
            frontier: views(self.frontier@),
            rows: views(self.rows@),
            level: self.level as int,
            printed_here: self.printed_here as int,
            omitted: self.omitted as int,
            tests_omitted: self.tests_omitted as int,
            reached: self.reached as int,
            associated: self.associated as int,
            truncated: self.truncated,
        }
    }
}

/// The most callers that one level can hand over.
const LEVEL_MAX: u128 = 0x1_0000_0000_0000_0000;

impl ImpactWalk {
    /// The projects that the seeds live in.
    pub closed spec fn homes(self) -> Set<Seq<char>> {
        texts_held(self.homes)
    }

    /// The ids seen are distinct, and every count stays within what the walk has met.
    pub closed spec fn wf(self) -> bool {
        &&& self.visited.wf()
        &&& self.level <= IMPACT_DEPTH_MAX
        &&& self.omitted + self.tests_omitted <= self.level * LEVEL_MAX
        &&& self.reached + self.associated <= self.visited@.len()
    }

    /// The walk before its first level.
    pub fn new(seeds: &[Node]) -> (walk: ImpactWalk)
        ensures
            walk.wf(),
            walk@ == impact_start(seeds@),
            walk.homes() == home_projects(seeds@, seeds@.len() as int),
    {
        let mut visited = KeyIndex::new();
        let mut frontier: Vec<String> = Vec::new();
        let mut homes = texts_new();
        assert(views(frontier@) =~= node_ids(seeds@).take(0));
        for i in 0..seeds.len()
            invariant
                visited.wf(),
                visited@ == distinct(node_ids(seeds@), i as int),
                views(frontier@) == node_ids(seeds@).take(i as int),
                texts_held(homes) == home_projects(seeds@, i as int),
        {
            let ghost before = frontier@;
            let id = seeds[i].id.as_str();
            assert(node_ids(seeds@)[i as int] == id@);
            if visited.find(id).is_none() {
                visited.add(id);
            }
            frontier.push(copy(id));
            texts_insert(&mut homes, seeds[i].project_id.as_str());
            assert(views(frontier@) =~= views(before).push(id@));
            assert(node_ids(seeds@).take(i + 1) =~= node_ids(seeds@).take(i as int).push(id@));
        }
        assert(node_ids(seeds@).take(seeds@.len() as int) =~= node_ids(seeds@));
        let walk = ImpactWalk {
            visited,
            frontier,
            rows: Vec::new(),
            homes,
            level: 0,
            printed_here: 0,
            omitted: 0,
            tests_omitted: 0,
            reached: 0,
            associated: 0,
            truncated: false,
        };
        assert(walk@.rows =~= Seq::empty());
        walk
    }

    /// Whether a walk to this depth has another level to take in: whether it is short of the
    /// depth, has someone's callers to ask for, and did not come to its cap.
    pub fn wants_level(&self, depth: u32) -> (wants: bool)
        ensures
            wants == (self@.level < depth && self@.frontier.len() > 0 && !self@.truncated),
    {
        assert(self@.frontier.len() == self.frontier@.len());
        self.level < depth && self.frontier.len() > 0 && !self.truncated
    }

    /// The ids whose callers the next level takes in.
    pub fn frontier(&self) -> (ids: &[String])
        ensures
            views(ids@) == self@.frontier,
    {
        self.frontier.as_slice()
    }

    /// One more level taken in, given the callers of the frontier in order.
    pub fn advance(&mut self, callers: &[(EdgeKind, Node)])
        requires
            old(self).wf(),
            old(self)@.level < IMPACT_DEPTH_MAX,
        ensures
            final(self).wf(),
            final(self)@ == impact_level(old(self)@, old(self).homes(), callers@),
            final(self).homes() == old(self).homes(),
    {
        let ghost homes = self.homes();
        let order = order_callers(callers, &self.homes);
        self.level = self.level + 1;
        self.printed_here = 0;
        self.frontier = Vec::new();
        assert(views(self.frontier@) =~= Seq::empty());
        let ghost start = self@;
        assert(start == ImpactView {
            frontier: Seq::empty(),
            level: old(self)@.level + 1,
            printed_here: 0,
            ..old(self)@
        });
        for i in 0..order.len()
            invariant
                self.visited.wf(),
                1 <= self.level <= IMPACT_DEPTH_MAX,
                self.omitted + self.tests_omitted <= (self.level - 1) * LEVEL_MAX + i,
                self.reached + self.associated <= self.visited@.len(),
                self.homes() == homes,
                order@ == impact_order(callers@, homes),
                order@.len() <= LEVEL_MAX,
                forall|k: int| 0 <= k < order@.len() ==> #[trigger] order@[k] < callers@.len(),
                self@ == impact_met_all(start, callers@, order@, i as int),
        {
            assert(order@[i as int] < callers@.len());
            self.meet(&callers[order[i]]);
        }
    }

    fn meet(&mut self, caller: &(EdgeKind, Node))
        requires
            old(self).visited.wf(),
            old(self).omitted + old(self).tests_omitted < u128::MAX,
            old(self).reached + old(self).associated <= old(self).visited@.len(),
        ensures
            final(self).visited.wf(),
            final(self)@ == impact_met(old(self)@, *caller),
            final(self).homes() == old(self).homes(),
            final(self).omitted + final(self).tests_omitted <= old(self).omitted + old(
                self,
            ).tests_omitted + 1,
            final(self).reached + final(self).associated <= final(self).visited@.len(),
            final(self).level == old(self).level,
    {
        if self.truncated {
            return;
        }
        if caller.1.in_test_file {
            self.tests_omitted = self.tests_omitted + 1;
            return;
        }
        if self.visited.len() >= IMPACT_NODES_MAX {
            self.truncated = true;
            return;
        }
        let id = caller.1.id.as_str();
        if self.visited.find(id).is_some() {
            return;
        }
        let ghost frontier = self.frontier@;
        let ghost rows = self.rows@;
        self.visited.add(id);
        let reach = is_reach_edge(caller.0);
        if reach {
            self.frontier.push(copy(id));
            assert(views(self.frontier@) =~= views(frontier).push(id@));
            self.reached = self.reached + 1;
        } else {
            self.associated = self.associated + 1;
            if self.level > 1 {
                return;
            }
        }
        assert(views(rows).len() == rows.len());
        if self.rows.len() < IMPACT_LINES_MAX && self.printed_here < IMPACT_LEVEL_LINES_MAX {
            let mut row = cat4("L", decimal_u32(self.level).as_str(), " [", caller.0.as_str());
            row.append("] ");
            row.append(node_line(&caller.1).as_str());
            self.rows.push(row);
            assert(views(self.rows@) =~= views(rows).push(row@));
            self.printed_here = self.printed_here + 1;
        } else {
            self.omitted = self.omitted + 1;
        }
    }
}

fn order_callers(callers: &[(EdgeKind, Node)], homes: &FxHashSet<String>) -> (order: Vec<usize>)
    ensures
        order@ == impact_order(callers@, texts_held(*homes)),
        order@.len() <= callers@.len(),
        forall|k: int| 0 <= k < order@.len() ==> #[trigger] order@[k] < callers@.len(),
{
    let ghost home_set = texts_held(*homes);
    let ghost relevant = relevant_callers(callers@, callers@.len() as int);
    let mut kept: Vec<usize> = Vec::new();
    for i in 0..callers.len()
        invariant
            kept@ == relevant_callers(callers@, i as int),
            kept@.len() <= i,
            forall|k: int| 0 <= k < kept@.len() ==> #[trigger] kept@[k] < callers@.len(),
    {
        if callers[i].0 != EdgeKind::Contains && callers[i].1.kind != NodeKind::File {
            kept.push(i);
        }
    }
    let ghost wanted = relevant.map_values(|p: usize| impact_key(callers@[p as int], home_set));
    let mut keys: Vec<Vec<Part>> = Vec::new();
    for i in 0..kept.len()
        invariant
            kept@ == relevant,
            home_set == texts_held(*homes),
            forall|k: int| 0 <= k < kept@.len() ==> #[trigger] kept@[k] < callers@.len(),
            wanted == relevant.map_values(|p: usize| impact_key(callers@[p as int], home_set)),
            keys_view(keys@) == wanted.take(i as int),
    {
        let ghost before = keys@;
        assert(kept@[i as int] < callers@.len());
        let caller = &callers[kept[i]];
        let mut key: Vec<Part> = Vec::new();
        key.push(Part::Number(edge_rank(caller.0) as i128));
        key.push(
            Part::Number(
                if texts_contains(homes, caller.1.project_id.as_str()) {
                    1
                } else {
                    0
                },
            ),
        );
        let ghost head = key_view(key);
        push_listing_key(&mut key, &caller.1);
        assert(head =~= seq![
            PartView::Number(edge_rank_spec(caller.0)),
            PartView::Number(
                if home_set.contains(caller.1.project_id@) {
                    1
                } else {
                    0
                },
            ),
        ]);
        keys.push(key);
        assert(keys_view(keys@) =~= keys_view(before).push(wanted[i as int]));
        assert(wanted.take(i + 1) =~= wanted.take(i as int).push(wanted[i as int]));
    }
    assert(wanted.take(kept@.len() as int) =~= wanted);
    assert(keys@.len() == keys_view(keys@).len());
    let order = arrange(kept.as_slice(), &keys);
    assert forall|k: int| 0 <= k < order@.len() implies #[trigger] order@[k] < callers@.len() by {
        assert(kept@.contains(order@[k]));
        let i = choose|i: int| 0 <= i < kept@.len() && kept@[i] == order@[k];
        assert(kept@[i] < callers@.len());
    }
    order
}

/// The first `count` rows, one per line.
pub open spec fn row_lines(rows: Seq<Seq<char>>, count: int) -> Seq<char>
    decreases count,
{
    if count <= 0 {
        ""@
    } else {
        row_lines(rows, count - 1) + rows[count - 1] + "\n"@
    }
}

/// The blast radius of a symbol, from a finished walk.
pub open spec fn impact_text_spec(
    symbol: Seq<char>,
    depth: u32,
    seeds: Seq<Node>,
    walk: ImpactView,
    page: Page,
    generation: u64,
) -> Seq<char> {
    let merged = if seeds.len() > 1 {
        decimal_spec(seeds.len()) + " definitions of "@ + quoted(symbol) + " ("@ + tally_text(
            kind_labels(seeds),
        ) + "): blast radii merged; narrow with Owner.member.\n"@
    } else {
        ""@
    };
    let window = slice_spec(walk.rows, page.offset as int, IMPACT_LINES_MAX as int);
    let none = if walk.rows.len() == 0 && walk.omitted == 0 {
        "no non-test transitive callers\n"@
    } else {
        ""@
    };
    let omitted = if walk.omitted > 0 {
        "(+"@ + decimal_spec(walk.omitted as nat)
            + " more transitive callers; inspect a specific caller, or lower depth)\n"@
    } else {
        ""@
    };
    let tests = if walk.tests_omitted > 0 {
        "("@ + decimal_spec(walk.tests_omitted as nat) + " test caller(s) omitted)\n"@
    } else {
        ""@
    };
    let truncated = if walk.truncated {
        "(walk stopped at "@ + decimal_spec(IMPACT_NODES_MAX as nat)
            + " nodes; narrow the seed with Owner.member)\n"@
    } else {
        ""@
    };
    let associated = if walk.associated > 0 {
        ", plus "@ + decimal_spec(walk.associated as nat)
            + " type/schema association(s) (first hop only, not expanded)"@
    } else {
        ""@
    };
    if seeds.len() == 0 {
        "no symbol named "@ + quoted(symbol)
    } else {
        note_text(page) + "impact of "@ + symbol + " (depth "@ + decimal_spec(depth as nat) + "): "@
            + decimal_spec(walk.reached as nat) + " non-test caller(s)"@ + associated + "\n"@
            + merged + row_lines(window, window.len() as int) + next_text(
            page.offset as int,
            window.len() as int,
            walk.rows.len() as int,
            generation,
        ) + none + omitted + tests + truncated
    }
}

/// The blast radius of a change to `symbol`, rendered from a finished walk: the transitive
/// non-test callers, strongest edge and cross-project hops first, paged by cursor. Type and schema
/// associations are counted apart from callers.
pub fn impact_text(
    symbol: &str,
    depth: u32,
    seeds: &[Node],
    walk: &ImpactWalk,
    page: &Page,
    generation: u64,
) -> (text: String)
    requires
        depth <= IMPACT_DEPTH_MAX,
    ensures
        text@ == impact_text_spec(symbol@, depth, seeds@, walk@, *page, generation),
{
    if seeds.len() == 0 {
        return cat2("no symbol named ", quote(symbol).as_str());
    }
    let merged = if seeds.len() > 1 {
        let mut merged = decimal_usize(seeds.len());
        merged.append(" definitions of ");
        merged.append(quote(symbol).as_str());
        merged.append(" (");
        merged.append(summarize_kinds(seeds).as_str());
        merged.append("): blast radii merged; narrow with Owner.member.\n");
        merged
    } else {
        copy("")
    };
    assert(walk@.rows.len() == walk.rows@.len());
    let window = slice(walk.rows.as_slice(), page.offset, IMPACT_LINES_MAX);
    assert(views(window@) =~= slice_spec(
        walk@.rows,
        page.offset as int,
        IMPACT_LINES_MAX as int,
    ));
    let associated = if walk.associated > 0 {
        cat3(
            ", plus ",
            decimal_usize(walk.associated).as_str(),
            " type/schema association(s) (first hop only, not expanded)",
        )
    } else {
        copy("")
    };
    let mut text = note_line(page);
    text.append("impact of ");
    text.append(symbol);
    text.append(" (depth ");
    text.append(decimal_u32(depth).as_str());
    text.append("): ");
    text.append(decimal_usize(walk.reached).as_str());
    text.append(" non-test caller(s)");
    text.append(associated.as_str());
    text.append("\n");
    text.append(merged.as_str());
    text.append(lines_of(window).as_str());
    text.append(
        next_text_line(page.offset, window.len(), walk.rows.len(), generation).as_str(),
    );
    text.append(
        if walk.rows.len() == 0 && walk.omitted == 0 {
            "no non-test transitive callers\n"
        } else {
            ""
        },
    );
    let omitted = if walk.omitted > 0 {
        cat3(
            "(+",
            decimal_u128(walk.omitted).as_str(),
            " more transitive callers; inspect a specific caller, or lower depth)\n",
        )
    } else {
        copy("")
    };
    text.append(omitted.as_str());
    let tests = if walk.tests_omitted > 0 {
        cat3("(", decimal_u128(walk.tests_omitted).as_str(), " test caller(s) omitted)\n")
    } else {
        copy("")
    };
    text.append(tests.as_str());
    let truncated = if walk.truncated {
        cat3(
            "(walk stopped at ",
            decimal_usize(IMPACT_NODES_MAX).as_str(),
            " nodes; narrow the seed with Owner.member)\n",
        )
    } else {
        copy("")
    };
    text.append(truncated.as_str());
    text
}

fn lines_of(rows: &[String]) -> (text: String)
    ensures
        text@ == row_lines(views(rows@), rows@.len() as int),
{
    let mut text = copy("");
    for i in 0..rows.len()
        invariant
            text@ == row_lines(views(rows@), i as int),
    {
        text.append(rows[i].as_str());
        text.append("\n");
    }
    text
}

/// What every level of a walk keeps: no caller is counted twice, the listing and the walk stay
/// within their caps, and each new id was reached or associated, never both.
pub open spec fn impact_sound(walk: ImpactView, seeds: int) -> bool {
    &&& forall|i: int, j: int|
        0 <= i < j < walk.visited.len() ==> #[trigger] walk.visited[i] != #[trigger] walk.visited[j]
    &&& walk.rows.len() <= IMPACT_LINES_MAX
    &&& walk.visited.len() == seeds + walk.reached + walk.associated
    &&& walk.visited.len() <= seeds || walk.visited.len() <= IMPACT_NODES_MAX
    &&& walk.rows.len() + walk.omitted <= walk.reached + walk.associated
}

/// A walk starts sound.
pub proof fn law_impact_starts_sound(seeds: Seq<Node>)
    ensures
        impact_sound(
            impact_start(seeds),
            distinct(node_ids(seeds), seeds.len() as int).len() as int,
        ),
{
    lemma_distinct(node_ids(seeds), seeds.len() as int);
}

/// Every level keeps the walk sound, whatever callers it is handed.
pub proof fn law_impact_stays_sound(
    walk: ImpactView,
    homes: Set<Seq<char>>,
    callers: Seq<(EdgeKind, Node)>,
    seeds: int,
)
    requires
        impact_sound(walk, seeds),
    ensures
        impact_sound(impact_level(walk, homes, callers), seeds),
{
    let order = impact_order(callers, homes);
    let start = ImpactView {
        frontier: Seq::empty(),
        level: walk.level + 1,
        printed_here: 0,
        ..walk
    };
    lemma_met_stays_sound(start, callers, order, order.len() as int, seeds);
}

proof fn lemma_met_stays_sound(
    walk: ImpactView,
    callers: Seq<(EdgeKind, Node)>,
    order: Seq<usize>,
    count: int,
    seeds: int,
)
    requires
        impact_sound(walk, seeds),
    ensures
        impact_sound(impact_met_all(walk, callers, order, count), seeds),
    decreases count,
{
    if count > 0 {
        lemma_met_stays_sound(walk, callers, order, count - 1, seeds);
        let before = impact_met_all(walk, callers, order, count - 1);
        lemma_key_at(before.visited, callers[order[count - 1] as int].1.id@, 0);
    }
}

/// A caller from a test file is never listed, expanded or counted as reached.
pub proof fn law_test_callers_are_only_counted(walk: ImpactView, caller: (EdgeKind, Node))
    requires
        caller.1.in_test_file,
        !walk.truncated,
    ensures
        impact_met(walk, caller) == (ImpactView {
            tests_omitted: walk.tests_omitted + 1,
            ..walk
        }),
{
}

// ---------------------------------------------------------------------------
// Subclasses

/// What a walk down the subclasses of a class has seen so far.
#[verifier::ext_equal]
pub struct SubclassView {
    pub visited: Seq<Seq<char>>,
    /// The ids whose subclasses the next hop asks for.
    pub frontier: Seq<Seq<char>>,
    /// The lines of the subclasses found.
    pub found: Seq<Seq<char>>,
    pub hops: int,
}

/// The walk before its first hop.
pub open spec fn subclass_start(seeds: Seq<Node>) -> SubclassView {
    SubclassView {
        visited: distinct(node_ids(seeds), seeds.len() as int),
        frontier: node_ids(seeds),
        found: Seq::empty(),
        hops: 0,
    }
}

/// The walk once it has met one more incoming edge: a class that extends one of the frontier is
/// found the first time it is met, and any other edge changes nothing.
pub open spec fn subclass_met(walk: SubclassView, caller: (EdgeKind, Node)) -> SubclassView {
    if caller.0 != EdgeKind::Extends || key_at(walk.visited, caller.1.id@, 0) is Some {
        walk
    } else {
        SubclassView {
            visited: walk.visited.push(caller.1.id@),
            frontier: walk.frontier.push(caller.1.id@),
            found: walk.found.push(node_line_spec(caller.1)),
            ..walk
        }
    }
}

/// The walk once it has met the first `count` incoming edges.
pub open spec fn subclass_met_all(
    walk: SubclassView,
    callers: Seq<(EdgeKind, Node)>,
    count: int,
) -> SubclassView
    decreases count,
{
    if count <= 0 {
        walk
    } else {
        subclass_met(subclass_met_all(walk, callers, count - 1), callers[count - 1])
    }
}

/// The walk after one more hop, given the incoming edges of its frontier.
pub open spec fn subclass_hop(walk: SubclassView, callers: Seq<(EdgeKind, Node)>) -> SubclassView {
    subclass_met_all(
        SubclassView { frontier: Seq::empty(), hops: walk.hops + 1, ..walk },
        callers,
        callers.len() as int,
    )
}

/// The walk has a hop left to take: someone to ask about, and hops to spare.
pub open spec fn subclass_open(walk: SubclassView) -> bool {
    walk.frontier.len() > 0 && walk.hops < SUBCLASS_HOPS_MAX
}

/// How many subclasses fill a page, and one more so that the next page is announced truthfully.
pub open spec fn subclass_ceiling_spec(offset: int, limit: int) -> int {
    if offset + limit + 1 > usize::MAX {
        usize::MAX as int
    } else {
        offset + limit + 1
    }
}

pub fn subclass_ceiling(offset: usize, limit: u32) -> (ceiling: usize)
    ensures
        ceiling == subclass_ceiling_spec(offset as int, limit as int),
{
    offset.saturating_add(limit as usize).saturating_add(1)
}

/// A breadth-first walk down incoming `Extends` edges. One hop at a time, it says whose incoming
/// edges it needs and takes them in.
pub struct SubclassWalk {
    visited: KeyIndex,
    frontier: Vec<String>,
    found: Vec<String>,
    hops: u32,
}

impl View for SubclassWalk {
    type V = SubclassView;

    closed spec fn view(&self) -> SubclassView {
        SubclassView {
            visited: self.visited@,
            frontier: views(self.frontier@),
            found: views(self.found@),
            hops: self.hops as int,
        }
    }
}

impl SubclassWalk {
    pub closed spec fn wf(self) -> bool {
        self.visited.wf()
    }

    /// The walk before its first hop.
    pub fn new(seeds: &[Node]) -> (walk: SubclassWalk)
        ensures
            walk.wf(),
            walk@ == subclass_start(seeds@),
    {
        let mut visited = KeyIndex::new();
        let mut frontier: Vec<String> = Vec::new();
        assert(views(frontier@) =~= node_ids(seeds@).take(0));
        for i in 0..seeds.len()
            invariant
                visited.wf(),
                visited@ == distinct(node_ids(seeds@), i as int),
                views(frontier@) == node_ids(seeds@).take(i as int),
        {
            let ghost before = frontier@;
            let id = seeds[i].id.as_str();
            assert(node_ids(seeds@)[i as int] == id@);
            if visited.find(id).is_none() {
                visited.add(id);
            }
            frontier.push(copy(id));
            assert(views(frontier@) =~= views(before).push(id@));
            assert(node_ids(seeds@).take(i + 1) =~= node_ids(seeds@).take(i as int).push(id@));
        }
        assert(node_ids(seeds@).take(seeds@.len() as int) =~= node_ids(seeds@));
        let walk = SubclassWalk { visited, frontier, found: Vec::new(), hops: 0 };
        assert(walk@.found =~= Seq::empty());
        walk
    }

    /// Whether the walk takes another hop: it has one left, and the page is not full yet.
    pub fn wants_hop(&self, ceiling: usize) -> (wants: bool)
        ensures
            wants == (subclass_open(self@) && self@.found.len() < ceiling),
    {
        assert(self@.frontier.len() == self.frontier@.len());
        assert(self@.found.len() == self.found@.len());
        self.frontier.len() > 0 && self.hops < SUBCLASS_HOPS_MAX && self.found.len() < ceiling
    }

    /// The ids whose incoming edges the next hop takes in.
    pub fn frontier(&self) -> (ids: &[String])
        ensures
            views(ids@) == self@.frontier,
    {
        self.frontier.as_slice()
    }

    /// One more hop taken in, given the incoming edges of the frontier in order.
    pub fn advance(&mut self, callers: &[(EdgeKind, Node)])
        requires
            old(self).wf(),
            old(self)@.hops < SUBCLASS_HOPS_MAX,
        ensures
            final(self).wf(),
            final(self)@ == subclass_hop(old(self)@, callers@),
    {
        self.hops = self.hops + 1;
        self.frontier = Vec::new();
        assert(views(self.frontier@) =~= Seq::empty());
        let ghost start = self@;
        for i in 0..callers.len()
            invariant
                self.visited.wf(),
                self@ == subclass_met_all(start, callers@, i as int),
        {
            let id = callers[i].1.id.as_str();
            if callers[i].0 == EdgeKind::Extends && self.visited.find(id).is_none() {
                let ghost frontier = self.frontier@;
                let ghost found = self.found@;
                let line = node_line(&callers[i].1);
                self.visited.add(id);
                self.frontier.push(copy(id));
                self.found.push(line);
                assert(views(self.frontier@) =~= views(frontier).push(id@));
                assert(views(self.found@) =~= views(found).push(line@));
            }
        }
    }
}

/// The first `count` lines of a listing, each behind two spaces.
pub open spec fn indented_lines(lines: Seq<Seq<char>>, count: int) -> Seq<char>
    decreases count,
{
    if count <= 0 {
        ""@
    } else {
        indented_lines(lines, count - 1) + "  "@ + lines[count - 1] + "\n"@
    }
}

/// The lines of a listing, or a word where there are none.
pub open spec fn listing_lines(lines: Seq<Seq<char>>) -> Seq<char> {
    if lines.len() == 0 {
        "  (none)\n"@
    } else {
        indented_lines(lines, lines.len() as int)
    }
}

fn listing_of(lines: &[String]) -> (text: String)
    ensures
        text@ == listing_lines(views(lines@)),
{
    assert(views(lines@).len() == lines@.len());
    if lines.len() == 0 {
        return copy("  (none)\n");
    }
    let mut text = copy("");
    for i in 0..lines.len()
        invariant
            text@ == indented_lines(views(lines@), i as int),
    {
        text.append("  ");
        text.append(lines[i].as_str());
        text.append("\n");
    }
    text
}

/// The transitive subclasses of a base class or mixin, from a finished walk.
pub open spec fn subclasses_text_spec(
    symbol: Seq<char>,
    seeds: Seq<Node>,
    walk: SubclassView,
    limit: u32,
    page: Page,
    generation: u64,
) -> Seq<char> {
    let window = slice_spec(walk.found, page.offset as int, limit as int);
    let unwalked = subclass_open(walk) && walk.found.len() >= subclass_ceiling_spec(
        page.offset as int,
        limit as int,
    );
    if seeds.len() == 0 {
        "no symbol named "@ + quoted(symbol)
    } else {
        note_text(page) + "subclasses of "@ + symbol + " ("@ + decimal_spec(window.len())
            + " shown of "@ + decimal_spec(walk.found.len()) + " found):\n"@ + listing_lines(window)
            + next_text(
            page.offset as int,
            window.len() as int,
            walk.found.len() as int,
            generation,
        ) + if unwalked {
            "(walk stopped once this page filled; deeper levels of the tree were not expanded, so the count is a lower bound)\n"@
        } else {
            ""@
        }
    }
}

/// The transitive subclasses of a base class or mixin, from a walk that wants no more hops: a deep
/// mixin tree comes back whole, across projects, and a walk that stopped at a full page says so.
pub fn subclasses_text(
    symbol: &str,
    seeds: &[Node],
    walk: &SubclassWalk,
    limit: u32,
    page: &Page,
    generation: u64,
) -> (text: String)
    ensures
        text@ == subclasses_text_spec(symbol@, seeds@, walk@, limit, *page, generation),
{
    if seeds.len() == 0 {
        return cat2("no symbol named ", quote(symbol).as_str());
    }
    assert(walk@.found.len() == walk.found@.len());
    assert(walk@.frontier.len() == walk.frontier@.len());
    let window = slice(walk.found.as_slice(), page.offset, limit as usize);
    assert(views(window@) =~= slice_spec(walk@.found, page.offset as int, limit as int));
    let ceiling = subclass_ceiling(page.offset, limit);
    let unwalked = walk.frontier.len() > 0 && walk.hops < SUBCLASS_HOPS_MAX && walk.found.len()
        >= ceiling;
    let mut text = note_line(page);
    text.append("subclasses of ");
    text.append(symbol);
    text.append(" (");
    text.append(decimal_usize(window.len()).as_str());
    text.append(" shown of ");
    text.append(decimal_usize(walk.found.len()).as_str());
    text.append(" found):\n");
    text.append(listing_of(window).as_str());
    text.append(
        next_text_line(page.offset, window.len(), walk.found.len(), generation).as_str(),
    );
    text.append(
        if unwalked {
            "(walk stopped once this page filled; deeper levels of the tree were not expanded, so the count is a lower bound)\n"
        } else {
            ""
        },
    );
    text
}

/// Each subclass is found once: a hop keeps the ids it has seen distinct, and adds one for each
/// subclass it finds.
pub proof fn law_subclasses_are_found_once(walk: SubclassView, callers: Seq<(EdgeKind, Node)>)
    requires
        forall|i: int, j: int|
            0 <= i < j < walk.visited.len() ==> #[trigger] walk.visited[i]
                != #[trigger] walk.visited[j],
    ensures
        ({
            let after = subclass_hop(walk, callers);
            &&& forall|i: int, j: int|
                0 <= i < j < after.visited.len() ==> #[trigger] after.visited[i]
                    != #[trigger] after.visited[j]
            &&& after.visited.len() - walk.visited.len() == after.found.len() - walk.found.len()
            &&& after.frontier.len() == after.found.len() - walk.found.len()
        }),
{
    lemma_subclasses_once(
        SubclassView { frontier: Seq::empty(), hops: walk.hops + 1, ..walk },
        callers,
        callers.len() as int,
    );
}

proof fn lemma_subclasses_once(walk: SubclassView, callers: Seq<(EdgeKind, Node)>, count: int)
    requires
        forall|i: int, j: int|
            0 <= i < j < walk.visited.len() ==> #[trigger] walk.visited[i]
                != #[trigger] walk.visited[j],
        walk.frontier.len() == 0,
    ensures
        ({
            let after = subclass_met_all(walk, callers, count);
            &&& forall|i: int, j: int|
                0 <= i < j < after.visited.len() ==> #[trigger] after.visited[i]
                    != #[trigger] after.visited[j]
            &&& after.visited.len() - walk.visited.len() == after.found.len() - walk.found.len()
            &&& after.frontier.len() == after.found.len() - walk.found.len()
        }),
    decreases count,
{
    if count > 0 {
        lemma_subclasses_once(walk, callers, count - 1);
        let before = subclass_met_all(walk, callers, count - 1);
        lemma_key_at(before.visited, callers[count - 1].1.id@, 0);
    }
}

// ---------------------------------------------------------------------------
// Orphans

/// A definition without an incoming edge, whether the framework reaches it, and how many unbound
/// dynamic calls in its project have its name.
pub struct OrphanRow {
    pub node: Node,
    pub framework_reached: bool,
    pub dispatches: u32,
}

/// The lines of the candidates among the first `count` rows: those that neither the framework nor
/// a dynamic call may reach.
pub open spec fn orphan_lines(rows: Seq<OrphanRow>, count: int) -> Seq<Seq<char>>
    decreases count,
{
    if count <= 0 {
        Seq::empty()
    } else {
        let row = rows[count - 1];
        if !row.framework_reached && row.dispatches == 0 {
            orphan_lines(rows, count - 1).push(node_line_spec(row.node))
        } else {
            orphan_lines(rows, count - 1)
        }
    }
}

/// How many of the first `count` rows are withheld because a dynamic call has their name.
pub open spec fn dispatched(rows: Seq<OrphanRow>, count: int) -> int
    decreases count,
{
    if count <= 0 {
        0
    } else {
        dispatched(rows, count - 1) + if !rows[count - 1].framework_reached && rows[count
            - 1].dispatches > 0 {
            1int
        } else {
            0
        }
    }
}

/// The candidate dead code of one project.
pub open spec fn orphans_text_spec(
    projects: Seq<Project>,
    project: Option<&str>,
    rows: Seq<OrphanRow>,
    limit: u32,
    page: Page,
    generation: u64,
) -> Seq<char> {
    let lines = orphan_lines(rows, rows.len() as int);
    let window = slice_spec(lines, page.offset as int, limit as int);
    let withheld = dispatched(rows, rows.len() as int);
    match project {
        None => "pass project=<id or name>: orphans is scoped to one project"@,
        Some(name) => match project_named(projects, name@, 0) {
            None => "no project named "@ + quoted(name@),
            Some(at) => note_text(page) + "orphan candidates in "@ + projects[at].id@ + " ("@
                + decimal_spec(window.len()) + " shown of "@ + decimal_spec(lines.len())
                + ", verify before deleting):\n"@ + listing_lines(window) + next_text(
                page.offset as int,
                window.len() as int,
                lines.len() as int,
                generation,
            ) + (if withheld > 0 {
                "("@ + decimal_spec(withheld as nat)
                    + " definition(s) withheld: their names appear as unbound dynamic calls in this project, so they may be reached at runtime)\n"@
            } else {
                ""@
            }) + if rows.len() >= ORPHAN_SCAN_MAX {
                "(scan capped at "@ + decimal_spec(ORPHAN_SCAN_MAX as nat)
                    + " uncalled definitions in path order; later files were not examined)\n"@
            } else {
                ""@
            },
        },
    }
}

/// The candidate dead code in one project: definitions with no incoming edge but structural
/// containment, after dropping framework-reached symbols that legitimately lack a static caller.
/// `rows` is what a scan of the project fetched.
pub fn orphans_text(
    projects: &[Project],
    project: Option<&str>,
    rows: &[OrphanRow],
    limit: u32,
    page: &Page,
    generation: u64,
) -> (text: String)
    ensures
        text@ == orphans_text_spec(projects@, project, rows@, limit, *page, generation),
{
    let name = match project {
        Some(name) => name,
        None => {
            return copy("pass project=<id or name>: orphans is scoped to one project");
        },
    };
    let at: usize = match find_project(projects, name) {
        Some(at) => at,
        None => {
            return cat2("no project named ", quote(name).as_str());
        },
    };
    let mut lines: Vec<String> = Vec::new();
    let mut withheld: usize = 0;
    assert(views(lines@) =~= Seq::empty());
    for i in 0..rows.len()
        invariant
            views(lines@) == orphan_lines(rows@, i as int),
            withheld == dispatched(rows@, i as int),
            withheld <= i,
    {
        let ghost before = lines@;
        if crate::symbols::is_orphan_candidate(rows[i].framework_reached) {
            if rows[i].dispatches == 0 {
                let line = node_line(&rows[i].node);
                lines.push(line);
                assert(views(lines@) =~= views(before).push(line@));
            } else {
                withheld = withheld + 1;
            }
        }
    }
    assert(views(lines@).len() == lines@.len());
    let window = slice(lines.as_slice(), page.offset, limit as usize);
    assert(views(window@) =~= slice_spec(views(lines@), page.offset as int, limit as int));
    let mut text = note_line(page);
    text.append("orphan candidates in ");
    text.append(projects[at].id.as_str());
    text.append(" (");
    text.append(decimal_usize(window.len()).as_str());
    text.append(" shown of ");
    text.append(decimal_usize(lines.len()).as_str());
    text.append(", verify before deleting):\n");
    text.append(listing_of(window).as_str());
    text.append(next_text_line(page.offset, window.len(), lines.len(), generation).as_str());
    let held = if withheld > 0 {
        cat3(
            "(",
            decimal_usize(withheld).as_str(),
            " definition(s) withheld: their names appear as unbound dynamic calls in this project, so they may be reached at runtime)\n",
        )
    } else {
        copy("")
    };
    text.append(held.as_str());
    let capped = if rows.len() >= ORPHAN_SCAN_MAX as usize {
        cat3(
            "(scan capped at ",
            decimal_u32(ORPHAN_SCAN_MAX).as_str(),
            " uncalled definitions in path order; later files were not examined)\n",
        )
    } else {
        copy("")
    };
    text.append(capped.as_str());
    text
}

// ---------------------------------------------------------------------------
// Tests

/// The qualified name of the class or model that declares a member.
pub open spec fn owner_name_spec(qualified: Seq<char>) -> Option<Seq<char>> {
    match rsplit_once_spec(qualified, "::"@) {
        None => None,
        Some((file, tail)) => match rsplit_once_spec(tail, "."@) {
            None => None,
            Some((owner, member)) => Some(file + "::"@ + owner),
        },
    }
}

/// The qualified name of the class or model that declares a member, found by trimming the member
/// off its own (`app/x.py::Order.total` gives `app/x.py::Order`). `None` for a top-level
/// definition, which has no owner.
pub fn owner_name(qualified: &str) -> (name: Option<String>)
    ensures
        match name {
            Some(name) => owner_name_spec(qualified@) == Some(name@),
            None => owner_name_spec(qualified@) is None,
        },
{
    match rsplit_once(qualified, "::") {
        None => None,
        Some((file, tail)) => match rsplit_once(tail.as_str(), ".") {
            None => None,
            Some((owner, _)) => Some(cat3(file.as_str(), "::", owner.as_str())),
        },
    }
}

/// The position of the node that a listing shows first.
pub open spec fn first_listed_spec(nodes: Seq<Node>) -> Option<int> {
    if nodes.len() == 0 {
        None
    } else {
        Some(
            listing_sorted(nodes, Seq::new(nodes.len(), |i: int| i as usize))[0] as int,
        )
    }
}

/// The owner among the nodes that share its qualified name: the one a listing shows first.
pub fn first_listed(nodes: &[Node]) -> (found: Option<usize>)
    ensures
        match found {
            Some(at) => at < nodes@.len() && first_listed_spec(nodes@) == Some(at as int),
            None => nodes@.len() == 0,
        },
{
    if nodes.len() == 0 {
        return None;
    }
    let mut positions: Vec<usize> = Vec::new();
    for i in 0..nodes.len()
        invariant
            positions@.len() == i,
            forall|k: int| 0 <= k < i ==> #[trigger] positions@[k] == k,
    {
        positions.push(i);
    }
    assert(positions@ =~= Seq::new(nodes@.len(), |i: int| i as usize));
    let sorted = sort_listing(nodes, positions.as_slice());
    assert(sorted@[0] < nodes@.len());
    Some(sorted[0])
}

/// A symbol's owner and the references from tests that bind to it.
pub struct OwnerCoverage {
    pub owner: Node,
    pub covering: Vec<(EdgeKind, Node)>,
}

/// The references from tests that bind to a symbol, and where it is a member its owner.
pub struct Coverage {
    pub covering: Vec<(EdgeKind, Node)>,
    pub owner: Option<OwnerCoverage>,
}

/// What is said of a symbol that no test binds to. Of a member, which is only ever reached in ways
/// that leave no edge, nothing is claimed that is not known: its owner's coverage is named.
pub open spec fn uncovered_note(node: Node, owner: Option<OwnerCoverage>) -> Seq<char> {
    if coverage_checkable(node) {
        "  (no covering tests)\n"@
    } else {
        match owner {
            None => "  (no covering tests)\n"@,
            Some(owner) => if owner.covering@.len() == 0 {
                "  (no covering tests, and none on its owner "@ + owner.owner.name@ + " either)\n"@
            } else {
                "  (no test binds to this member directly; member-level coverage is under-detected, because a `self.member` read or a `.services.member()` call leaves no edge)\n  its owner "@
                    + owner.owner.name@ + " has "@ + decimal_spec(
                    dedup_spec(owner.covering@).len(),
                ) + " covering test reference(s): `tests "@ + targetable_spec(
                    owner.owner.qualified_name@,
                ) + "`\n"@
            },
        }
    }
}

fn append_uncovered_note(node: &Node, owner: &Option<OwnerCoverage>) -> (text: String)
    ensures
        text@ == uncovered_note(*node, *owner),
{
    if is_coverage_checkable(node) {
        return copy("  (no covering tests)\n");
    }
    match owner {
        None => copy("  (no covering tests)\n"),
        Some(owner) => {
            if owner.covering.len() == 0 {
                return cat3(
                    "  (no covering tests, and none on its owner ",
                    owner.owner.name.as_str(),
                    " either)\n",
                );
            }
            let rows = dedup_related(owner.covering.as_slice());
            assert(rows_view(rows@).len() == rows@.len());
            let mut text = cat4(
                "  (no test binds to this member directly; member-level coverage is under-detected, because a `self.member` read or a `.services.member()` call leaves no edge)\n  its owner ",
                owner.owner.name.as_str(),
                " has ",
                decimal_usize(rows.len()).as_str(),
            );
            text.append(" covering test reference(s): `tests ");
            text.append(targetable_name(&owner.owner).as_str());
            text.append("`\n");
            text
        },
    }
}

/// The first `count` distinct related symbols, each with the kind of its edge.
pub open spec fn covering_lines(
    related: Seq<(EdgeKind, Node)>,
    rows: Seq<(int, int)>,
    count: int,
) -> Seq<char>
    decreases count,
{
    if count <= 0 {
        ""@
    } else {
        covering_lines(related, rows, count - 1) + "  ["@ + related[rows[count - 1].0].0.label()
            + "] "@ + node_line_spec(related[rows[count - 1].0].1) + "\n"@
    }
}

/// The smaller of two numbers.
pub open spec fn smaller(left: int, right: int) -> int {
    if left <= right {
        left
    } else {
        right
    }
}

/// One symbol and the tests that cover it.
pub open spec fn tests_entry(node: Node, coverage: Coverage, limit: u32) -> Seq<char> {
    let rows = dedup_spec(coverage.covering@);
    node_line_spec(node) + "\n"@ + if rows.len() == 0 {
        uncovered_note(node, coverage.owner)
    } else {
        covering_lines(coverage.covering@, rows, smaller(rows.len() as int, limit as int))
    }
}

/// The entries of the first `count` symbols.
pub open spec fn tests_entries(
    nodes: Seq<Node>,
    coverage: Seq<Coverage>,
    limit: u32,
    count: int,
) -> Seq<char>
    decreases count,
{
    if count <= 0 {
        ""@
    } else {
        tests_entries(nodes, coverage, limit, count - 1) + tests_entry(
            nodes[count - 1],
            coverage[count - 1],
            limit,
        )
    }
}

/// The tests covering the symbols of a name.
pub open spec fn tests_text_spec(
    symbol: Seq<char>,
    nodes: Seq<Node>,
    coverage: Seq<Coverage>,
    limit: u32,
) -> Seq<char> {
    let shown = smaller(nodes.len() as int, TESTS_SYMBOLS_MAX as int);
    if nodes.len() == 0 {
        "no symbol named "@ + quoted(symbol)
    } else {
        tests_entries(nodes, coverage, limit, shown) + if nodes.len() > TESTS_SYMBOLS_MAX {
            "("@ + decimal_spec((nodes.len() - TESTS_SYMBOLS_MAX) as nat)
                + " more definition(s) named "@ + quoted(symbol)
                + " not shown; pass Owner.member to target one)\n"@
        } else {
            ""@
        }
    }
}

/// The tests covering a symbol: the references to it from tests, with repeats collapsed, or an
/// honest line where none binds to it. `coverage` holds an entry for each symbol shown.
pub fn tests_text(symbol: &str, nodes: &[Node], coverage: &[Coverage], limit: u32) -> (text: String)
    requires
        coverage@.len() >= smaller(nodes@.len() as int, TESTS_SYMBOLS_MAX as int),
    ensures
        text@ == tests_text_spec(symbol@, nodes@, coverage@, limit),
{
    if nodes.len() == 0 {
        return cat2("no symbol named ", quote(symbol).as_str());
    }
    let shown: usize = if nodes.len() <= TESTS_SYMBOLS_MAX {
        nodes.len()
    } else {
        TESTS_SYMBOLS_MAX
    };
    let mut text = copy("");
    for i in 0..shown
        invariant
            shown <= nodes@.len(),
            shown <= coverage@.len(),
            text@ == tests_entries(nodes@, coverage@, limit, i as int),
    {
        let entry = tests_of(&nodes[i], &coverage[i], limit);
        text.append(entry.as_str());
    }
    let more = if nodes.len() > TESTS_SYMBOLS_MAX {
        let mut more = cat4(
            "(",
            decimal_usize(nodes.len() - TESTS_SYMBOLS_MAX).as_str(),
            " more definition(s) named ",
            quote(symbol).as_str(),
        );
        more.append(" not shown; pass Owner.member to target one)\n");
        more
    } else {
        copy("")
    };
    text.append(more.as_str());
    text
}

fn tests_of(node: &Node, coverage: &Coverage, limit: u32) -> (text: String)
    ensures
        text@ == tests_entry(*node, *coverage, limit),
{
    let related = coverage.covering.as_slice();
    let rows = dedup_related(related);
    assert(rows_view(rows@).len() == rows@.len());
    let mut text = node_line(node);
    text.append("\n");
    if rows.len() == 0 {
        text.append(append_uncovered_note(node, &coverage.owner).as_str());
        return text;
    }
    let shown: usize = if rows.len() <= limit as usize {
        rows.len()
    } else {
        limit as usize
    };
    let mut listed = copy("");
    for i in 0..shown
        invariant
            shown <= rows@.len(),
            forall|k: int| 0 <= k < rows@.len() ==> (#[trigger] rows@[k]).0 < related@.len(),
            listed@ == covering_lines(related@, rows_view(rows@), i as int),
    {
        assert(rows@[i as int].0 < related@.len());
        let row = &related[rows[i].0];
        listed.append("  [");
        listed.append(row.0.as_str());
        listed.append("] ");
        listed.append(node_line(&row.1).as_str());
        listed.append("\n");
    }
    text.append(listed.as_str());
    text
}

/// A member that no test binds to is never called flatly uncovered while its owner is covered.
pub proof fn law_a_covered_owner_is_named(node: Node, owner: OwnerCoverage)
    requires
        !coverage_checkable(node),
        owner.covering@.len() > 0,
    ensures
        uncovered_note(node, Some(owner)) != "  (no covering tests)\n"@,
{
    let note = uncovered_note(node, Some(owner));
    reveal_strlit("  (no covering tests)\n");
    reveal_strlit(
        "  (no test binds to this member directly; member-level coverage is under-detected, because a `self.member` read or a `.services.member()` call leaves no edge)\n  its owner ",
    );
    assert(note[6] == 't');
}

// ---------------------------------------------------------------------------
// What a change reaches

/// The relations a change propagates along, from what is used to what uses it.
pub open spec fn propagates(kind: EdgeKind) -> bool {
    ||| kind is Calls
    ||| kind is Decorates
    ||| kind is Extends
    ||| kind is ExtendsTemplate
    ||| kind is Handles
    ||| kind is Imports
    ||| kind is IncludesTemplate
    ||| kind is Instantiates
    ||| kind is Overrides
    ||| kind is OverridesTemplate
    ||| kind is Receives
    ||| kind is References
    ||| kind is Renders
    ||| kind is Resolves
    ||| kind is RoutesTo
}

/// The walk from these seeds once it has taken in the first `count` of the lists of callers.
pub open spec fn walked(
    seeds: Seq<Node>,
    homes: Set<Seq<char>>,
    handed: Seq<Seq<(EdgeKind, Node)>>,
    count: int,
) -> ImpactView
    decreases count,
{
    if count <= 0 {
        impact_start(seeds)
    } else {
        impact_level(walked(seeds, homes, handed, count - 1), homes, handed[count - 1])
    }
}

/// The ids that the first `count` levels found to expand.
pub open spec fn expanded(
    seeds: Seq<Node>,
    homes: Set<Seq<char>>,
    handed: Seq<Seq<(EdgeKind, Node)>>,
    count: int,
) -> Seq<Seq<char>>
    decreases count,
{
    if count <= 0 {
        Seq::empty()
    } else {
        expanded(seeds, homes, handed, count - 1) + walked(seeds, homes, handed, count).frontier
    }
}

/// Every level is handed each edge of the graph that leads to an id it asked for.
pub open spec fn handed_all(
    edge: spec_fn(EdgeKind, Node, Seq<char>) -> bool,
    seeds: Seq<Node>,
    homes: Set<Seq<char>>,
    handed: Seq<Seq<(EdgeKind, Node)>>,
) -> bool {
    forall|k: int, kind: EdgeKind, caller: Node, id: Seq<char>|
        0 <= k < handed.len() && walked(seeds, homes, handed, k).frontier.contains(id)
            && #[trigger] edge(kind, caller, id) ==> (#[trigger] handed[k]).contains((kind, caller))
}

/// Nobody by this id is handed over along a relation that a change does not propagate along,
/// unless as the container of a symbol.
pub open spec fn only_propagates(handed: Seq<Seq<(EdgeKind, Node)>>, id: Seq<char>) -> bool {
    forall|k: int, i: int|
        0 <= k < handed.len() && 0 <= i < handed[k].len() && (#[trigger] handed[k][i]).1.id@ == id
            ==> propagates(handed[k][i].0) || handed[k][i].0 == EdgeKind::Contains
}

proof fn lemma_relevant_callers(callers: Seq<(EdgeKind, Node)>, count: int)
    requires
        0 <= count <= callers.len() <= usize::MAX,
    ensures
        forall|k: int|
            0 <= k < relevant_callers(callers, count).len() ==> {
                let p = #[trigger] relevant_callers(callers, count)[k];
                p < count && callers[p as int].0 != EdgeKind::Contains && !(callers[p as int].1.kind
                    is File)
            },
        forall|p: int|
            0 <= p < count && (#[trigger] callers[p]).0 != EdgeKind::Contains
                && !(callers[p].1.kind is File) ==> relevant_callers(callers, count).contains(
                p as usize,
            ),
    decreases count,
{
    if count > 0 {
        lemma_relevant_callers(callers, count - 1);
        let before = relevant_callers(callers, count - 1);
        let after = relevant_callers(callers, count);
        assert forall|p: int|
            0 <= p < count && (#[trigger] callers[p]).0 != EdgeKind::Contains
                && !(callers[p].1.kind is File) implies after.contains(p as usize) by {
            if p < count - 1 {
                assert(before.contains(p as usize));
                let k = choose|k: int| 0 <= k < before.len() && before[k] == p as usize;
                assert(after[k] == p as usize);
            } else {
                assert(after[after.len() - 1] == p as usize);
            }
        }
    }
}

/// What one level meets, as far as the first `count` of its callers.
proof fn lemma_met_all(
    start: ImpactView,
    callers: Seq<(EdgeKind, Node)>,
    order: Seq<usize>,
    count: int,
)
    requires
        start.frontier.len() == 0,
        0 <= count <= order.len(),
    ensures
        ({
            let after = impact_met_all(start, callers, order, count);
            &&& start.truncated ==> after.truncated
            &&& after.reached == start.reached + after.frontier.len()
            &&& forall|k: int|
                0 <= k < start.visited.len() ==> after.visited.contains(
                    #[trigger] start.visited[k],
                )
            &&& forall|k: int|
                0 <= k < after.visited.len() ==> start.visited.contains(
                    #[trigger] after.visited[k],
                ) || after.frontier.contains(after.visited[k]) || exists|i: int|
                    0 <= i < count && callers[(#[trigger] order[i]) as int].1.id@
                        == after.visited[k] && !propagates(callers[order[i] as int].0)
            &&& forall|k: int|
                0 <= k < after.frontier.len() ==> after.visited.contains(
                    #[trigger] after.frontier[k],
                ) && !start.visited.contains(after.frontier[k])
            &&& after.frontier.no_duplicates()
            &&& !after.truncated ==> forall|i: int|
                0 <= i < count && !callers[(#[trigger] order[i]) as int].1.in_test_file
                    ==> after.visited.contains(callers[order[i] as int].1.id@)
        }),
    decreases count,
{
    if count > 0 {
        lemma_met_all(start, callers, order, count - 1);
        let before = impact_met_all(start, callers, order, count - 1);
        let after = impact_met_all(start, callers, order, count);
        let caller = callers[order[count - 1] as int];
        lemma_key_at(before.visited, caller.1.id@, 0);
        assert(forall|k: int| 0 <= k < before.visited.len() ==> #[trigger] after.visited[k]
            == before.visited[k]);
        assert(forall|k: int| 0 <= k < before.frontier.len() ==> #[trigger] after.frontier[k]
            == before.frontier[k]);
        assert forall|id: Seq<char>| #[trigger] before.visited.contains(id) implies
            after.visited.contains(id) by {
            let k = choose|k: int| 0 <= k < before.visited.len() && before.visited[k] == id;
            assert(after.visited[k] == id);
        }
        assert forall|id: Seq<char>| #[trigger] before.frontier.contains(id) implies
            after.frontier.contains(id) by {
            let k = choose|k: int| 0 <= k < before.frontier.len() && before.frontier[k] == id;
            assert(after.frontier[k] == id);
        }
        assert forall|k: int| 0 <= k < after.visited.len() implies start.visited.contains(
            #[trigger] after.visited[k],
        ) || after.frontier.contains(after.visited[k]) || exists|i: int|
            0 <= i < count && callers[(#[trigger] order[i]) as int].1.id@ == after.visited[k]
                && !propagates(callers[order[i] as int].0) by {
            if k < before.visited.len() {
                assert(before.visited[k] == after.visited[k]);
            } else if propagates(caller.0) {
                assert(after.frontier[after.frontier.len() - 1] == after.visited[k]);
            } else {
                assert(callers[order[count - 1] as int].1.id@ == after.visited[k]);
            }
        }
        assert forall|k: int| 0 <= k < after.frontier.len() implies after.visited.contains(
            #[trigger] after.frontier[k],
        ) && !start.visited.contains(after.frontier[k]) by {
            if k < before.frontier.len() {
                assert(before.frontier[k] == after.frontier[k]);
            } else {
                assert(after.visited[after.visited.len() - 1] == caller.1.id@);
                if start.visited.contains(caller.1.id@) {
                    assert(before.visited.contains(caller.1.id@));
                }
            }
        }
        assert forall|a: int, b: int|
            0 <= a < after.frontier.len() && 0 <= b < after.frontier.len() && a
                != b implies after.frontier[a] != after.frontier[b] by {
            if a < before.frontier.len() {
                assert(before.visited.contains(before.frontier[a]));
            }
            if b < before.frontier.len() {
                assert(before.visited.contains(before.frontier[b]));
            }
        }
        if !after.truncated {
            assert forall|i: int|
                0 <= i < count
                    && !callers[(#[trigger] order[i]) as int].1.in_test_file implies after.visited.contains(
            callers[order[i] as int].1.id@) by {
                if i < count - 1 {
                    assert(before.visited.contains(callers[order[i] as int].1.id@));
                } else if key_at(before.visited, caller.1.id@, 0) is Some {
                    assert(before.visited.contains(caller.1.id@));
                } else {
                    assert(after.visited[after.visited.len() - 1] == caller.1.id@);
                }
            }
        }
    }
}

/// What one level finds: everyone who uses what it asked for is seen; whoever is new and propagates
/// a change is expanded next and counted.
proof fn lemma_level_meets(
    walk: ImpactView,
    homes: Set<Seq<char>>,
    callers: Seq<(EdgeKind, Node)>,
)
    requires
        callers.len() <= usize::MAX,
    ensures
        ({
            let after = impact_level(walk, homes, callers);
            &&& walk.truncated ==> after.truncated
            &&& after.reached == walk.reached + after.frontier.len()
            &&& forall|k: int|
                0 <= k < walk.visited.len() ==> after.visited.contains(#[trigger] walk.visited[k])
            &&& forall|k: int|
                0 <= k < after.visited.len() ==> walk.visited.contains(#[trigger] after.visited[k])
                    || after.frontier.contains(after.visited[k]) || exists|p: int|
                    0 <= p < callers.len() && (#[trigger] callers[p]).1.id@ == after.visited[k]
                        && !propagates(callers[p].0) && callers[p].0 != EdgeKind::Contains
            &&& forall|k: int|
                0 <= k < after.frontier.len() ==> after.visited.contains(
                    #[trigger] after.frontier[k],
                ) && !walk.visited.contains(after.frontier[k])
            &&& after.frontier.no_duplicates()
            &&& !after.truncated ==> forall|p: int|
                0 <= p < callers.len() && (#[trigger] callers[p]).0 != EdgeKind::Contains
                    && !(callers[p].1.kind is File) && !callers[p].1.in_test_file
                    ==> after.visited.contains(callers[p].1.id@)
        }),
{
    let order = impact_order(callers, homes);
    let relevant = relevant_callers(callers, callers.len() as int);
    let start = ImpactView {
        frontier: Seq::empty(),
        level: walk.level + 1,
        printed_here: 0,
        ..walk
    };
    let after = impact_level(walk, homes, callers);
    lemma_relevant_callers(callers, callers.len() as int);
    law_arranging_keeps_the_items(
        relevant,
        relevant.map_values(|p: usize| impact_key(callers[p as int], homes)),
    );
    lemma_met_all(start, callers, order, order.len() as int);
    assert forall|k: int| 0 <= k < after.visited.len() implies walk.visited.contains(
        #[trigger] after.visited[k],
    ) || after.frontier.contains(after.visited[k]) || exists|p: int|
        0 <= p < callers.len() && (#[trigger] callers[p]).1.id@ == after.visited[k] && !propagates(
            callers[p].0,
        ) && callers[p].0 != EdgeKind::Contains by {
        if !walk.visited.contains(after.visited[k]) && !after.frontier.contains(after.visited[k]) {
            let i = choose|i: int|
                0 <= i < order.len() && callers[(#[trigger] order[i]) as int].1.id@
                    == after.visited[k] && !propagates(callers[order[i] as int].0);
            assert(relevant.contains(order[i]));
            let r = choose|r: int| 0 <= r < relevant.len() && relevant[r] == order[i];
            assert(callers[relevant[r] as int].0 != EdgeKind::Contains);
        }
    }
    if !after.truncated {
        assert forall|p: int|
            0 <= p < callers.len() && (#[trigger] callers[p]).0 != EdgeKind::Contains
                && !(callers[p].1.kind is File)
                && !callers[p].1.in_test_file implies after.visited.contains(callers[p].1.id@) by {
            assert(relevant.contains(p as usize));
            let r = choose|r: int| 0 <= r < relevant.len() && relevant[r] == p as usize;
            assert(order.contains(relevant[r]));
            let i = choose|i: int| 0 <= i < order.len() && order[i] == p as usize;
            assert(callers[order[i] as int] == callers[p]);
        }
    }
}

/// A walk that has not come to its cap had not come to it earlier.
proof fn lemma_untruncated(
    seeds: Seq<Node>,
    homes: Set<Seq<char>>,
    handed: Seq<Seq<(EdgeKind, Node)>>,
    earlier: int,
    later: int,
)
    requires
        0 <= earlier <= later <= handed.len(),
        forall|k: int| 0 <= k < handed.len() ==> (#[trigger] handed[k]).len() <= usize::MAX,
        !walked(seeds, homes, handed, later).truncated,
    ensures
        !walked(seeds, homes, handed, earlier).truncated,
    decreases later - earlier,
{
    if earlier < later {
        lemma_level_meets(walked(seeds, homes, handed, later - 1), homes, handed[later - 1]);
        lemma_untruncated(seeds, homes, handed, earlier, later - 1);
    }
}

/// What was seen stays seen.
proof fn lemma_stays_visited(
    seeds: Seq<Node>,
    homes: Set<Seq<char>>,
    handed: Seq<Seq<(EdgeKind, Node)>>,
    earlier: int,
    later: int,
    id: Seq<char>,
)
    requires
        0 <= earlier <= later <= handed.len(),
        forall|k: int| 0 <= k < handed.len() ==> (#[trigger] handed[k]).len() <= usize::MAX,
        walked(seeds, homes, handed, earlier).visited.contains(id),
    ensures
        walked(seeds, homes, handed, later).visited.contains(id),
    decreases later - earlier,
{
    if earlier < later {
        lemma_stays_visited(seeds, homes, handed, earlier, later - 1, id);
        let before = walked(seeds, homes, handed, later - 1);
        lemma_level_meets(before, homes, handed[later - 1]);
        let k = choose|k: int| 0 <= k < before.visited.len() && before.visited[k] == id;
        assert(walked(seeds, homes, handed, later).visited.contains(before.visited[k]));
    }
}

/// What a level asked for was seen.
proof fn lemma_frontier_visited(
    seeds: Seq<Node>,
    homes: Set<Seq<char>>,
    handed: Seq<Seq<(EdgeKind, Node)>>,
    level: int,
    id: Seq<char>,
)
    requires
        0 <= level <= handed.len(),
        forall|k: int| 0 <= k < handed.len() ==> (#[trigger] handed[k]).len() <= usize::MAX,
        walked(seeds, homes, handed, level).frontier.contains(id),
    ensures
        walked(seeds, homes, handed, level).visited.contains(id),
{
    let walk = walked(seeds, homes, handed, level);
    let k = choose|k: int| 0 <= k < walk.frontier.len() && walk.frontier[k] == id;
    if level == 0 {
        lemma_distinct(node_ids(seeds), seeds.len() as int);
        assert(node_ids(seeds)[k] == id);
        assert(key_at(walk.visited, id, 0) is Some);
        lemma_key_at(walk.visited, id, 0);
    } else {
        lemma_level_meets(walked(seeds, homes, handed, level - 1), homes, handed[level - 1]);
        assert(walk.visited.contains(walk.frontier[k]));
    }
}

/// Whoever was seen, and met only along relations that propagate a change, was expanded.
proof fn lemma_visited_expands(
    seeds: Seq<Node>,
    homes: Set<Seq<char>>,
    handed: Seq<Seq<(EdgeKind, Node)>>,
    count: int,
    id: Seq<char>,
) -> (level: int)
    requires
        0 <= count <= handed.len(),
        forall|k: int| 0 <= k < handed.len() ==> (#[trigger] handed[k]).len() <= usize::MAX,
        only_propagates(handed, id),
        walked(seeds, homes, handed, count).visited.contains(id),
    ensures
        0 <= level <= count,
        walked(seeds, homes, handed, level).frontier.contains(id),
    decreases count,
{
    let walk = walked(seeds, homes, handed, count);
    let k = choose|k: int| 0 <= k < walk.visited.len() && walk.visited[k] == id;
    if count == 0 {
        lemma_distinct(node_ids(seeds), seeds.len() as int);
        lemma_key_at(walk.visited, id, 0);
        assert(key_at(walk.visited, id, 0) is Some);
        let at = choose|at: int| 0 <= at < seeds.len() && #[trigger] node_ids(seeds)[at] == id;
        assert(walk.frontier[at] == id);
        0
    } else {
        let before = walked(seeds, homes, handed, count - 1);
        lemma_level_meets(before, homes, handed[count - 1]);
        assert(walk.visited[k] == id);
        if before.visited.contains(id) {
            lemma_visited_expands(seeds, homes, handed, count - 1, id)
        } else {
            if !walk.frontier.contains(id) {
                let p = choose|p: int|
                    0 <= p < handed[count - 1].len() && (#[trigger] handed[count - 1][p]).1.id@
                        == id && !propagates(handed[count - 1][p].0) && handed[count - 1][p].0
                        != EdgeKind::Contains;
                assert(handed[count - 1][p].1.id@ == id);
            }
            count
        }
    }
}

/// A change reaches whoever uses the symbol, and whoever uses those: everyone from whom a chain of
/// relations that propagate a change leads to a seed is seen, and is a seed or expanded, no later
/// than at the level that is as far from the seeds as the chain is long. The chain is listed from
/// the seeds outward, nobody on it is a file or stands in a test file, and the walk has not come to
/// its cap.
pub proof fn law_a_change_reaches_its_users(
    edge: spec_fn(EdgeKind, Node, Seq<char>) -> bool,
    seeds: Seq<Node>,
    homes: Set<Seq<char>>,
    handed: Seq<Seq<(EdgeKind, Node)>>,
    seed: int,
    chain: Seq<(EdgeKind, Node)>,
) -> (level: int)
    requires
        handed_all(edge, seeds, homes, handed),
        forall|k: int| 0 <= k < handed.len() ==> (#[trigger] handed[k]).len() <= usize::MAX,
        !walked(seeds, homes, handed, handed.len() as int).truncated,
        0 <= seed < seeds.len(),
        0 < chain.len() <= handed.len(),
        edge(chain[0].0, chain[0].1, seeds[seed].id@),
        forall|j: int|
            0 < j < chain.len() ==> edge(
                (#[trigger] chain[j]).0,
                chain[j].1,
                chain[j - 1].1.id@,
            ),
        forall|j: int|
            0 <= j < chain.len() ==> {
                let kind = (#[trigger] chain[j]).0;
                ||| kind is Calls
                ||| kind is Decorates
                ||| kind is Extends
                ||| kind is ExtendsTemplate
                ||| kind is Handles
                ||| kind is Imports
                ||| kind is IncludesTemplate
                ||| kind is Instantiates
                ||| kind is Overrides
                ||| kind is OverridesTemplate
                ||| kind is Receives
                ||| kind is References
                ||| kind is Renders
                ||| kind is Resolves
                ||| kind is RoutesTo
            },
        forall|j: int|
            0 <= j < chain.len() ==> !(#[trigger] chain[j]).1.in_test_file && !(chain[j].1.kind
                is File) && only_propagates(handed, chain[j].1.id@),
    ensures
        0 <= level <= chain.len(),
        walked(seeds, homes, handed, level).frontier.contains(chain.last().1.id@),
        walked(seeds, homes, handed, handed.len() as int).visited.contains(chain.last().1.id@),
        node_ids(seeds).contains(chain.last().1.id@) || expanded(
            seeds,
            homes,
            handed,
            handed.len() as int,
        ).contains(chain.last().1.id@),
    decreases chain.len(),
{
    let last = chain.len() - 1;
    let id = chain[last].1.id@;
    let asked = if last == 0 {
        assert(node_ids(seeds)[seed] == seeds[seed].id@);
        0
    } else {
        let shorter = chain.drop_last();
        assert(forall|j: int| 0 <= j < last ==> #[trigger] shorter[j] == chain[j]);
        assert(shorter.last() == chain[last - 1]);
        law_a_change_reaches_its_users(edge, seeds, homes, handed, seed, shorter)
    };
    let target = if last == 0 {
        seeds[seed].id@
    } else {
        chain[last - 1].1.id@
    };
    assert(walked(seeds, homes, handed, asked).frontier.contains(target));
    assert(edge(chain[last].0, chain[last].1, target));
    assert(handed[asked].contains((chain[last].0, chain[last].1)));
    let p = choose|p: int|
        0 <= p < handed[asked].len() && handed[asked][p] == (chain[last].0, chain[last].1);
    lemma_untruncated(seeds, homes, handed, asked + 1, handed.len() as int);
    lemma_level_meets(walked(seeds, homes, handed, asked), homes, handed[asked]);
    assert(handed[asked][p].1.id@ == id);
    assert(walked(seeds, homes, handed, asked + 1).visited.contains(id));
    let level = lemma_visited_expands(seeds, homes, handed, asked + 1, id);
    lemma_frontier_visited(seeds, homes, handed, level, id);
    lemma_stays_visited(seeds, homes, handed, level, handed.len() as int, id);
    if level > 0 {
        lemma_expanded_holds(seeds, homes, handed, level, handed.len() as int, id);
    }
    level
}

proof fn lemma_expanded_holds(
    seeds: Seq<Node>,
    homes: Set<Seq<char>>,
    handed: Seq<Seq<(EdgeKind, Node)>>,
    level: int,
    count: int,
    id: Seq<char>,
)
    requires
        0 < level <= count,
        walked(seeds, homes, handed, level).frontier.contains(id),
    ensures
        expanded(seeds, homes, handed, count).contains(id),
    decreases count,
{
    let all = expanded(seeds, homes, handed, count);
    let before = expanded(seeds, homes, handed, count - 1);
    let frontier = walked(seeds, homes, handed, count).frontier;
    if level == count {
        let k = choose|k: int| 0 <= k < frontier.len() && frontier[k] == id;
        assert(all[before.len() + k] == id);
    } else {
        lemma_expanded_holds(seeds, homes, handed, level, count - 1, id);
        let k = choose|k: int| 0 <= k < before.len() && before[k] == id;
        assert(all[k] == id);
    }
}

/// The count of those reached is the count of those expanded, each of whom is counted once, was
/// seen, and is no seed.
pub proof fn law_whoever_is_expanded_is_counted(
    seeds: Seq<Node>,
    homes: Set<Seq<char>>,
    handed: Seq<Seq<(EdgeKind, Node)>>,
    count: int,
)
    requires
        0 <= count <= handed.len(),
        forall|k: int| 0 <= k < handed.len() ==> (#[trigger] handed[k]).len() <= usize::MAX,
    ensures
        walked(seeds, homes, handed, count).reached == expanded(seeds, homes, handed, count).len(),
        expanded(seeds, homes, handed, count).no_duplicates(),
        forall|k: int|
            0 <= k < expanded(seeds, homes, handed, count).len() ==> walked(
                seeds,
                homes,
                handed,
                count,
            ).visited.contains(#[trigger] expanded(seeds, homes, handed, count)[k])
                && !node_ids(seeds).contains(expanded(seeds, homes, handed, count)[k]),
    decreases count,
{
    if count > 0 {
        law_whoever_is_expanded_is_counted(seeds, homes, handed, count - 1);
        let before = walked(seeds, homes, handed, count - 1);
        let after = walked(seeds, homes, handed, count);
        let all = expanded(seeds, homes, handed, count);
        let earlier = expanded(seeds, homes, handed, count - 1);
        lemma_level_meets(before, homes, handed[count - 1]);
        assert forall|k: int| 0 <= k < all.len() implies after.visited.contains(#[trigger] all[k])
            && !node_ids(seeds).contains(all[k]) by {
            if k < earlier.len() {
                assert(before.visited.contains(earlier[k]));
                lemma_stays_visited(seeds, homes, handed, count - 1, count, earlier[k]);
            } else {
                assert(all[k] == after.frontier[k - earlier.len()]);
                if node_ids(seeds).contains(all[k]) {
                    lemma_frontier_visited(seeds, homes, handed, 0, all[k]);
                    lemma_stays_visited(seeds, homes, handed, 0, count - 1, all[k]);
                }
            }
        }
        assert forall|a: int, b: int|
            0 <= a < b < all.len() implies #[trigger] all[a] != #[trigger] all[b] by {
            if a < earlier.len() && b >= earlier.len() {
                assert(before.visited.contains(earlier[a]));
                assert(all[b] == after.frontier[b - earlier.len()]);
            } else if a >= earlier.len() {
                assert(all[a] == after.frontier[a - earlier.len()]);
                assert(all[b] == after.frontier[b - earlier.len()]);
            }
        }
    }
}

proof fn lemma_met_users(
    start: ImpactView,
    callers: Seq<(EdgeKind, Node)>,
    order: Seq<usize>,
    count: int,
)
    requires
        start.frontier.len() == 0,
        0 <= count <= order.len(),
    ensures
        ({
            let after = impact_met_all(start, callers, order, count);
            &&& after.level == start.level
            &&& after.rows.len() + after.omitted - start.rows.len() - start.omitted == (
            after.reached - start.reached) + if start.level <= 1 {
                after.associated - start.associated
            } else {
                0
            }
            &&& forall|k: int|
                0 <= k < after.frontier.len() ==> exists|i: int|
                    0 <= i < count && callers[(#[trigger] order[i]) as int].1.id@
                        == #[trigger] after.frontier[k] && propagates(callers[order[i] as int].0)
                        && !callers[order[i] as int].1.in_test_file
        }),
    decreases count,
{
    if count > 0 {
        lemma_met_users(start, callers, order, count - 1);
        let before = impact_met_all(start, callers, order, count - 1);
        let after = impact_met_all(start, callers, order, count);
        assert forall|k: int| 0 <= k < after.frontier.len() implies exists|i: int|
            0 <= i < count && callers[(#[trigger] order[i]) as int].1.id@
                == #[trigger] after.frontier[k] && propagates(callers[order[i] as int].0)
                && !callers[order[i] as int].1.in_test_file by {
            if k < before.frontier.len() {
                assert(before.frontier[k] == after.frontier[k]);
            } else {
                assert(callers[order[count - 1] as int].1.id@ == after.frontier[k]);
            }
        }
    }
}

/// A change reaches nobody else: whoever a level found to expand was handed to it along a relation
/// that propagates a change, is no file and stands in no test file.
pub proof fn law_a_change_reaches_only_its_users(
    seeds: Seq<Node>,
    homes: Set<Seq<char>>,
    handed: Seq<Seq<(EdgeKind, Node)>>,
    level: int,
    id: Seq<char>,
) -> (at: int)
    requires
        0 < level <= handed.len(),
        handed[level - 1].len() <= usize::MAX,
        walked(seeds, homes, handed, level).frontier.contains(id),
    ensures
        0 <= at < handed[level - 1].len(),
        handed[level - 1][at].1.id@ == id,
        propagates(handed[level - 1][at].0),
        !handed[level - 1][at].1.in_test_file,
        !(handed[level - 1][at].1.kind is File),
{
    let walk = walked(seeds, homes, handed, level - 1);
    let after = walked(seeds, homes, handed, level);
    let callers = handed[level - 1];
    let order = impact_order(callers, homes);
    let relevant = relevant_callers(callers, callers.len() as int);
    let start = ImpactView {
        frontier: Seq::empty(),
        level: walk.level + 1,
        printed_here: 0,
        ..walk
    };
    lemma_relevant_callers(callers, callers.len() as int);
    law_arranging_keeps_the_items(
        relevant,
        relevant.map_values(|p: usize| impact_key(callers[p as int], homes)),
    );
    lemma_met_users(start, callers, order, order.len() as int);
    let k = choose|k: int| 0 <= k < after.frontier.len() && after.frontier[k] == id;
    assert(after.frontier[k] == id);
    let i = choose|i: int|
        0 <= i < order.len() && callers[(#[trigger] order[i]) as int].1.id@ == after.frontier[k]
            && propagates(callers[order[i] as int].0) && !callers[order[i] as int].1.in_test_file;
    assert(relevant.contains(order[i]));
    let r = choose|r: int| 0 <= r < relevant.len() && relevant[r] == order[i];
    assert(relevant[r] < callers.len());
    order[i] as int
}

/// Every symbol reached is listed or counted as left out, and so is every symbol that is otherwise
/// related to a seed itself. What is otherwise related further out is neither.
pub proof fn law_whoever_is_reached_is_listed_or_left_out(
    seeds: Seq<Node>,
    homes: Set<Seq<char>>,
    handed: Seq<Seq<(EdgeKind, Node)>>,
    count: int,
)
    requires
        1 <= count <= handed.len(),
    ensures
        ({
            let walk = walked(seeds, homes, handed, count);
            &&& walk.level == count
            &&& walk.rows.len() + walk.omitted == walk.reached + walked(
                seeds,
                homes,
                handed,
                1,
            ).associated
        }),
    decreases count,
{
    let before = walked(seeds, homes, handed, count - 1);
    let start = ImpactView {
        frontier: Seq::empty(),
        level: before.level + 1,
        printed_here: 0,
        ..before
    };
    let order = impact_order(handed[count - 1], homes);
    lemma_met_users(start, handed[count - 1], order, order.len() as int);
    if count > 1 {
        law_whoever_is_reached_is_listed_or_left_out(seeds, homes, handed, count - 1);
    } else {
        assert(before == impact_start(seeds));
    }
}

// ---------------------------------------------------------------------------
// Who extends a class, and what nothing reaches

proof fn lemma_subclass_met_all(
    walk: SubclassView,
    callers: Seq<(EdgeKind, Node)>,
    count: int,
    at: int,
)
    requires
        0 <= at < count <= callers.len(),
        callers[at].0 is Extends,
    ensures
        ({
            let after = subclass_met_all(walk, callers, count);
            let id = callers[at].1.id@;
            &&& after.visited.contains(id)
            &&& walk.visited.contains(id) || after.frontier.contains(id)
        }),
    decreases count,
{
    let before = subclass_met_all(walk, callers, count - 1);
    let after = subclass_met_all(walk, callers, count);
    let id = callers[at].1.id@;
    if at < count - 1 {
        lemma_subclass_met_all(walk, callers, count - 1, at);
        let k = choose|k: int| 0 <= k < before.visited.len() && before.visited[k] == id;
        assert(after.visited[k] == id);
        if !walk.visited.contains(id) {
            let k = choose|k: int| 0 <= k < before.frontier.len() && before.frontier[k] == id;
            assert(after.frontier[k] == id);
        }
    } else {
        lemma_key_at(before.visited, id, 0);
        lemma_subclasses_come_of_extending(walk, callers, count - 1, id);
        if key_at(before.visited, id, 0) is None {
            assert(after.visited[after.visited.len() - 1] == id);
            assert(after.frontier[after.frontier.len() - 1] == id);
        } else {
            assert(before.visited[key_at(before.visited, id, 0)->0] == id);
        }
    }
}

proof fn lemma_subclasses_come_of_extending(
    walk: SubclassView,
    callers: Seq<(EdgeKind, Node)>,
    count: int,
    id: Seq<char>,
)
    requires
        0 <= count <= callers.len(),
    ensures
        ({
            let after = subclass_met_all(walk, callers, count);
            &&& after.visited.contains(id) ==> walk.visited.contains(id)
                || after.frontier.contains(id)
            &&& after.frontier.contains(id) ==> walk.frontier.contains(id) || exists|k: int|
                0 <= k < count && (#[trigger] callers[k]).0 is Extends && callers[k].1.id@ == id
        }),
    decreases count,
{
    if count > 0 {
        lemma_subclasses_come_of_extending(walk, callers, count - 1, id);
        let before = subclass_met_all(walk, callers, count - 1);
        let after = subclass_met_all(walk, callers, count);
        let last = callers[count - 1];
        if before.frontier.contains(id) {
            let k = choose|k: int| 0 <= k < before.frontier.len() && before.frontier[k] == id;
            assert(after.frontier[k] == id);
        }
        if after.visited.contains(id) && !before.visited.contains(id) {
            let k = choose|k: int| 0 <= k < after.visited.len() && after.visited[k] == id;
            if k < before.visited.len() {
                assert(before.visited[k] == id);
            }
            assert(last.1.id@ == id);
            assert(after.frontier[after.frontier.len() - 1] == id);
        }
        if after.frontier.contains(id) && !before.frontier.contains(id) {
            let k = choose|k: int| 0 <= k < after.frontier.len() && after.frontier[k] == id;
            if k < before.frontier.len() {
                assert(before.frontier[k] == id);
            }
            assert(last.0 is Extends && last.1.id@ == id);
        }
    }
}

/// Whatever extends a class of one hop is seen, and asked about at the next unless it had been
/// seen before; and nothing is asked about that extends none.
pub proof fn law_every_subclass_is_asked_about(
    walk: SubclassView,
    callers: Seq<(EdgeKind, Node)>,
    id: Seq<char>,
)
    ensures
        ({
            let after = subclass_hop(walk, callers);
            let extends = exists|k: int|
                0 <= k < callers.len() && (#[trigger] callers[k]).0 is Extends && callers[k].1.id@
                    == id;
            &&& after.hops == walk.hops + 1
            &&& extends ==> after.visited.contains(id)
            &&& extends && !walk.visited.contains(id) ==> after.frontier.contains(id)
            &&& after.frontier.contains(id) ==> extends
        }),
{
    let next = SubclassView { frontier: Seq::empty(), hops: walk.hops + 1, ..walk };
    lemma_subclass_hops(next, callers, callers.len() as int);
    lemma_subclasses_come_of_extending(next, callers, callers.len() as int, id);
    if exists|k: int|
        0 <= k < callers.len() && (#[trigger] callers[k]).0 is Extends && callers[k].1.id@ == id {
        let k = choose|k: int|
            0 <= k < callers.len() && (#[trigger] callers[k]).0 is Extends && callers[k].1.id@
                == id;
        lemma_subclass_met_all(next, callers, callers.len() as int, k);
    }
}

proof fn lemma_subclass_hops(walk: SubclassView, callers: Seq<(EdgeKind, Node)>, count: int)
    ensures
        subclass_met_all(walk, callers, count).hops == walk.hops,
    decreases count,
{
    if count > 0 {
        lemma_subclass_hops(walk, callers, count - 1);
    }
}

proof fn lemma_orphan_lines(rows: Seq<OrphanRow>, count: int, line: Seq<char>)
    requires
        0 <= count <= rows.len(),
    ensures
        orphan_lines(rows, count).contains(line) <==> exists|k: int|
            0 <= k < count && !(#[trigger] rows[k]).framework_reached && rows[k].dispatches == 0
                && line == node_line_spec(rows[k].node),
        orphan_lines(rows, count).len() == numbers::indices(
            count,
            |k: int| !rows[k].framework_reached && rows[k].dispatches == 0,
        ).len(),
        dispatched(rows, count) == numbers::indices(
            count,
            |k: int| !rows[k].framework_reached && rows[k].dispatches > 0,
        ).len(),
    decreases count,
{
    lemma_indices(count, |k: int| !rows[k].framework_reached && rows[k].dispatches == 0);
    lemma_indices(count, |k: int| !rows[k].framework_reached && rows[k].dispatches > 0);
    let lines = orphan_lines(rows, count);
    if count <= 0 {
        assert(!lines.contains(line));
    } else {
        lemma_orphan_lines(rows, count - 1, line);
        let before = orphan_lines(rows, count - 1);
        let row = rows[count - 1];
        if before.contains(line) {
            let k = choose|k: int| 0 <= k < before.len() && before[k] == line;
            assert(lines[k] == line);
        }
        if !row.framework_reached && row.dispatches == 0 && line == node_line_spec(row.node) {
            assert(lines[lines.len() - 1] == line);
        }
        if lines.contains(line) && !before.contains(line) {
            let k = choose|k: int| 0 <= k < lines.len() && lines[k] == line;
            if k < before.len() {
                assert(before[k] == line);
            }
            assert(!row.framework_reached && row.dispatches == 0);
        }
    }
}

/// Every definition that neither the framework nor a dynamic call may reach is a candidate, each
/// once, and no other is; those that only a dynamic call may reach are counted.
pub proof fn law_every_orphan_is_listed(rows: Seq<OrphanRow>, line: Seq<char>)
    ensures
        orphan_lines(rows, rows.len() as int).contains(line) <==> exists|k: int|
            0 <= k < rows.len() && !(#[trigger] rows[k]).framework_reached && rows[k].dispatches
                == 0 && line == node_line_spec(rows[k].node),
        orphan_lines(rows, rows.len() as int).len() == numbers::indices(
            rows.len() as int,
            |k: int| !rows[k].framework_reached && rows[k].dispatches == 0,
        ).len(),
        dispatched(rows, rows.len() as int) == numbers::indices(
            rows.len() as int,
            |k: int| !rows[k].framework_reached && rows[k].dispatches > 0,
        ).len(),
{
    lemma_orphan_lines(rows, rows.len() as int, line);
}

/// The owner of a member is what its qualified name says before the last dot behind the file.
pub proof fn law_a_member_is_owned_by_what_stands_before_it(
    file: Seq<char>,
    owner: Seq<char>,
    member: Seq<char>,
    qualified: Seq<char>,
)
    requires
        qualified == file + "::"@ + (owner + "."@ + member),
        forall|k: int| 0 <= k < owner.len() ==> #[trigger] owner[k] != ':',
        forall|k: int| 0 <= k < member.len() ==> #[trigger] member[k] != ':' && member[k] != '.',
    ensures
        owner_name_spec(qualified) == Some(file + "::"@ + owner),
{
    reveal_strlit("::");
    reveal_strlit(".");
    let tail = owner + "."@ + member;
    law_a_text_is_cut_at_the_last(qualified, "::"@, file, tail);
    let (head, rest) = rsplit_once_spec(qualified, "::"@)->0;
    assert(head + "::"@ + rest == file + "::"@ + tail);
    if head.len() > file.len() {
        let at = head.len() as int;
        assert((head + "::"@ + rest)[at] == ':');
        assert((head + "::"@ + rest)[at + 1] == ':');
        let k = at + 1 - file.len() - 2;
        assert((file + "::"@ + tail)[at + 1] == tail[k]);
        if k < owner.len() {
            assert(tail[k] == owner[k]);
        } else if k > owner.len() {
            assert(tail[k] == member[k - owner.len() - 1]);
        }
    }
    assert(head =~= qualified.subrange(0, file.len() as int));
    assert(file =~= qualified.subrange(0, file.len() as int));
    assert(rest =~= qualified.skip(file.len() as int + 2));
    assert(tail =~= qualified.skip(file.len() as int + 2));
    law_a_text_is_cut_at_the_last(tail, "."@, owner, member);
    let (front, back) = rsplit_once_spec(tail, "."@)->0;
    assert(front + "."@ + back == tail);
    if front.len() > owner.len() {
        let at = front.len() as int;
        assert((front + "."@ + back)[at] == '.');
        assert(tail[at] == member[at - owner.len() - 1]);
    }
    assert(front =~= tail.subrange(0, owner.len() as int));
    assert(owner =~= tail.subrange(0, owner.len() as int));
}

/// The projects at home are those of the seeds.
pub proof fn law_home_is_where_the_seeds_are(seeds: Seq<Node>, count: int, project: Seq<char>)
    requires
        0 <= count <= seeds.len(),
    ensures
        home_projects(seeds, count).contains(project) <==> exists|k: int|
            0 <= k < count && (#[trigger] seeds[k]).project_id@ == project,
    decreases count,
{
    if count > 0 {
        law_home_is_where_the_seeds_are(seeds, count - 1, project);
        if seeds[count - 1].project_id@ == project {
            assert(home_projects(seeds, count).contains(project));
        }
    }
}

/// Within a level the callers come by the strength of their relation, then those from other
/// projects before those at home, then as a listing has them.
pub proof fn law_callers_come_by_their_strength(
    callers: Seq<(EdgeKind, Node)>,
    homes: Set<Seq<char>>,
    a: int,
    b: int,
)
    requires
        callers.len() <= usize::MAX,
        0 <= a < b < impact_order(callers, homes).len(),
    ensures
        ({
            let order = impact_order(callers, homes);
            let (first, second) = (callers[order[a] as int], callers[order[b] as int]);
            let same = edge_rank_spec(first.0) == edge_rank_spec(second.0);
            let (near, far) = (
                homes.contains(first.1.project_id@),
                homes.contains(second.1.project_id@),
            );
            &&& edge_rank_spec(first.0) <= edge_rank_spec(second.0)
            &&& same ==> !(near && !far)
            &&& same && near == far ==> !leads(second.1, first.1)
        }),
{
    let relevant = relevant_callers(callers, callers.len() as int);
    let keys = relevant.map_values(|p: usize| impact_key(callers[p as int], homes));
    let order = impact_order(callers, homes);
    lemma_sorted_order(keys);
    law_arranging_sorts(keys, a, b);
    let (i, j) = (sorted_order(keys)[a], sorted_order(keys)[b]);
    assert(order[a] == relevant[i] && order[b] == relevant[j]);
    let (left, right) = (keys[i], keys[j]);
    let (first, second) = (callers[order[a] as int], callers[order[b] as int]);
    assert(left == impact_key(first, homes) && right == impact_key(second, homes));
    lemma_not_after(left, right);
    if left[0] == right[0] {
        lemma_not_after(left.skip(1), right.skip(1));
        assert(left.skip(1)[0] == left[1] && right.skip(1)[0] == right[1]);
        if left[1] == right[1] {
            assert(left.skip(1).skip(1) =~= listing_key_spec(first.1));
            assert(right.skip(1).skip(1) =~= listing_key_spec(second.1));
            if leads(second.1, first.1) {
                law_what_leads_is_listed_first(second.1, first.1);
            }
        }
    }
}

} // verus!
