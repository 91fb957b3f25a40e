//! What an answer shows of what was found: nothing on its page is left out.
use crate::chars::{lemma_occurs_grows, occurs, trim_spec};
use crate::cursor::{slice_spec, Page};
use crate::graph::{law_a_project_is_found_by_id_or_name, EdgeKind, Node, Project};
use crate::limits::{AT_RESULTS_MAX, IMPACT_LINES_MAX, NODE_CALLERS_INLINE_MAX};
use crate::order::indices;
use crate::render::{node_line_spec, node_lines_spec};
use crate::risk::Fraction;
use crate::tools::changed::{change_lines, change_order, changed_text_spec, ScoredChange};
use crate::tools::feature::{member_lines, MemberView};
use crate::tools::flows::{flow_row_text, flow_rows_text, FlowRow};
use crate::tools::history::{
    change_line, change_lines as symbol_change_lines, commit_line, commit_lines, history_text_spec,
    symbol_history_spec, CommitHit, SymbolHit,
};
use crate::tools::impact::{
    impact_text_spec, indented_lines, listing_lines, orphan_lines, orphans_text_spec, row_lines,
    subclasses_text_spec, ImpactView, OrphanRow, SubclassView,
};
use crate::tools::project::{
    file_lines, link_line, link_lines, links_text_spec, match_block, matched_files, ordered_links,
    route_block, route_lines, FileRow, LinkEdge, PairCount, ProjectFiles, RouteRowView, RouteTable,
    FILES_MATCH_MAX,
};
use crate::tools::search::{match_sorted, search_page};
use crate::tools::status::{status_lines, status_text_spec, ProjectStatus};
use crate::tools::symbol::{
    at_text_spec, called_by, callees_entry, callers_entry, field_lines, model_sections, own_order,
    plain_lines, related_lines, related_rows_spec, row_order, site_lines, site_order, texts_upto,
    CallSite, CalleeFacts, FieldView, ModelView, SourceCache,
};
use crate::tools::winnow::{
    column_result, derived_field, ranked_places, result_lines, winnow_text_spec, FactsView,
};
use crate::winnow::{CriterionView, Rank};
use vstd::prelude::*;

verus! {

proof fn lemma_row_lines(rows: Seq<Seq<char>>, count: int, k: int)
    requires
        0 <= k < count,
    ensures
        occurs(row_lines(rows, count), rows[k]),
    decreases count,
{
    lemma_occurs_grows();
    if k < count - 1 {
        lemma_row_lines(rows, count - 1, k);
    }
}

/// Every caller on the page of an impact is listed.
pub proof fn law_an_impact_lists_its_page(
    symbol: Seq<char>,
    depth: u32,
    seeds: Seq<Node>,
    walk: ImpactView,
    page: Page,
    generation: u64,
    k: int,
)
    requires
        seeds.len() > 0,
        page.offset <= k < walk.rows.len(),
        k < page.offset + IMPACT_LINES_MAX,
    ensures
        occurs(impact_text_spec(symbol, depth, seeds, walk, page, generation), walk.rows[k]),
{
    let window = slice_spec(walk.rows, page.offset as int, IMPACT_LINES_MAX as int);
    assert(window[k - page.offset] == walk.rows[k]);
    lemma_row_lines(window, window.len() as int, k - page.offset);
    lemma_occurs_grows();
}

proof fn lemma_indented_lines(lines: Seq<Seq<char>>, count: int, k: int)
    requires
        0 <= k < count,
    ensures
        occurs(indented_lines(lines, count), lines[k]),
    decreases count,
{
    lemma_occurs_grows();
    if k < count - 1 {
        lemma_indented_lines(lines, count - 1, k);
    }
}

/// Every subclass on the page is listed.
pub proof fn law_subclasses_are_listed_on_their_page(
    symbol: Seq<char>,
    seeds: Seq<Node>,
    walk: SubclassView,
    limit: u32,
    page: Page,
    generation: u64,
    k: int,
)
    requires
        seeds.len() > 0,
        page.offset <= k < walk.found.len(),
        k < page.offset + limit,
    ensures
        occurs(subclasses_text_spec(symbol, seeds, walk, limit, page, generation), walk.found[k]),
{
    let window = slice_spec(walk.found, page.offset as int, limit as int);
    assert(window[k - page.offset] == walk.found[k]);
    lemma_indented_lines(window, window.len() as int, k - page.offset);
    lemma_occurs_grows();
    assert(occurs(listing_lines(window), walk.found[k]));
}

/// Every candidate for dead code on the page is listed.
pub proof fn law_orphans_are_listed_on_their_page(
    projects: Seq<Project>,
    name: &str,
    rows: Seq<OrphanRow>,
    limit: u32,
    page: Page,
    generation: u64,
    k: int,
)
    requires
        exists|p: int|
            0 <= p < projects.len() && ((#[trigger] projects[p]).id@ == name@ || projects[p].name@
                == name@),
        page.offset <= k < orphan_lines(rows, rows.len() as int).len(),
        k < page.offset + limit,
    ensures
        occurs(
            orphans_text_spec(projects, Some(name), rows, limit, page, generation),
            orphan_lines(rows, rows.len() as int)[k],
        ),
{
    let lines = orphan_lines(rows, rows.len() as int);
    let window = slice_spec(lines, page.offset as int, limit as int);
    assert(window[k - page.offset] == lines[k]);
    lemma_indented_lines(window, window.len() as int, k - page.offset);
    law_a_project_is_found_by_id_or_name(projects, name@, 0);
    lemma_occurs_grows();
    assert(occurs(listing_lines(window), lines[k]));
}

proof fn lemma_link_lines(links: Seq<LinkEdge>, pairs: Seq<PairCount>, window: Seq<usize>, count: int, k: int)
    requires
        0 <= k < count,
    ensures
        occurs(link_lines(links, pairs, window, count), link_line(links[window[k] as int])),
    decreases count,
{
    lemma_occurs_grows();
    if k < count - 1 {
        lemma_link_lines(links, pairs, window, count - 1, k);
    }
}

/// Every link on the page is listed, in the order of its pair.
pub proof fn law_links_are_listed_on_their_page(
    link_count: u64,
    pairs: Seq<PairCount>,
    links: Seq<LinkEdge>,
    filter: Option<&str>,
    limit: u32,
    page: Page,
    generation: u64,
    k: int,
)
    requires
        link_count > 0,
        links.len() > 0,
        page.offset <= k < ordered_links(links, pairs).len(),
        k < page.offset + limit,
    ensures
        occurs(
            links_text_spec(link_count, pairs, links, filter, limit, page, generation),
            link_line(links[ordered_links(links, pairs)[k] as int]),
        ),
{
    let ordered = ordered_links(links, pairs);
    let window = slice_spec(ordered, page.offset as int, limit as int);
    assert(window[k - page.offset] == ordered[k]);
    lemma_link_lines(links, pairs, window, window.len() as int, k - page.offset);
    lemma_occurs_grows();
}

proof fn lemma_route_lines(rows: Seq<RouteRowView>, count: int, k: int)
    requires
        0 <= k < count,
    ensures
        occurs(route_lines(rows, count), "  "@ + rows[k].reverse_name + "\n    "@ + rows[k].pattern + "  →  "@ + rows[k].view_name
            + "  →  "@ + rows[k].template_name + "\n"@),
    decreases count,
{
    lemma_occurs_grows();
    if k < count - 1 {
        lemma_route_lines(rows, count - 1, k);
    }
}

/// Every route of a block is listed: its name, and below it its pattern, its view and its template.
pub proof fn law_routes_are_listed_in_their_block(
    project: Project,
    table: RouteTable,
    window: Seq<RouteRowView>,
    needle: Option<Seq<char>>,
    k: int,
)
    requires
        0 <= k < window.len(),
    ensures
        occurs(
            route_block(project, table, window, needle),
            "  "@ + window[k].reverse_name + "\n    "@ + window[k].pattern + "  →  "@
                + window[k].view_name + "  →  "@ + window[k].template_name + "\n"@,
        ),
{
    lemma_route_lines(window, window.len() as int, k);
    lemma_occurs_grows();
}

proof fn lemma_file_lines(files: Seq<FileRow>, shown: Seq<usize>, count: int, k: int)
    requires
        0 <= k < count,
    ensures
        occurs(file_lines(files, shown, count), files[shown[k] as int].path@),
    decreases count,
{
    lemma_occurs_grows();
    if k < count - 1 {
        lemma_file_lines(files, shown, count - 1, k);
    }
}

/// Every file on the page that matches is listed by its path.
pub proof fn law_matching_files_are_listed_on_their_page(
    row: ProjectFiles,
    needle: Seq<char>,
    page: Page,
    generation: u64,
    k: int,
)
    requires
        page.offset <= k < matched_files(row.files@, needle).len(),
        k < page.offset + FILES_MATCH_MAX,
    ensures
        occurs(
            match_block(row, needle, page, generation),
            row.files@[matched_files(row.files@, needle)[k] as int].path@,
        ),
{
    let matched = matched_files(row.files@, needle);
    let window = slice_spec(matched, page.offset as int, FILES_MATCH_MAX as int);
    assert(window[k - page.offset] == matched[k]);
    lemma_file_lines(row.files@, window, window.len() as int, k - page.offset);
    lemma_occurs_grows();
}

proof fn lemma_node_lines_spec(nodes: Seq<Node>, shown: Seq<int>, count: int, k: int)
    requires
        0 <= k < count,
    ensures
        occurs(node_lines_spec(nodes, shown, count), node_line_spec(nodes[shown[k]])),
    decreases count,
{
    lemma_occurs_grows();
    if k < count - 1 {
        lemma_node_lines_spec(nodes, shown, count - 1, k);
    }
}

/// Every symbol on the page of a search is listed, the best match first.
pub proof fn law_a_search_lists_its_page(
    nodes: Seq<Node>,
    positions: Seq<usize>,
    misspelled: bool,
    query: Seq<char>,
    limit: u32,
    page: Page,
    generation: u64,
    k: int,
)
    requires
        page.offset <= k < match_sorted(nodes, positions, trim_spec(query)).len(),
        k < page.offset + limit,
    ensures
        occurs(
            search_page(nodes, positions, misspelled, query, limit, page, generation),
            node_line_spec(nodes[match_sorted(nodes, positions, trim_spec(query))[k] as int]),
        ),
{
    let sorted = match_sorted(nodes, positions, trim_spec(query));
    let window = slice_spec(sorted, page.offset as int, limit as int);
    assert(window[k - page.offset] == sorted[k]);
    assert(indices(window)[k - page.offset] == sorted[k]);
    lemma_node_lines_spec(nodes, indices(window), window.len() as int, k - page.offset);
    lemma_occurs_grows();
}

proof fn lemma_related_lines(related: Seq<(EdgeKind, Node)>, rows: Seq<(int, int)>, order: Seq<usize>, indent: Seq<char>, count: int, k: int)
    requires
        0 <= k < count,
    ensures
        occurs(related_lines(related, rows, order, indent, count), node_line_spec(related[rows[order[k] as int].0].1)),
    decreases count,
{
    lemma_occurs_grows();
    if k < count - 1 {
        lemma_related_lines(related, rows, order, indent, count - 1, k);
    }
}

/// Every relation of a symbol is listed, as far as the limit goes: those it calls in its callees,
/// and those that call it inline.
pub proof fn law_relations_are_listed_as_far_as_the_limit(
    node: Node,
    facts: CalleeFacts,
    related: Seq<(EdgeKind, Node)>,
    rows: Seq<(int, int)>,
    home: Seq<char>,
    limit: u32,
    k: int,
)
    ensures
        0 <= k < limit && k < related_rows_spec(facts.related@).len() ==> occurs(
            callees_entry(node, facts, limit),
            node_line_spec(
                facts.related@[related_rows_spec(facts.related@)[row_order(
                    facts.related@,
                    related_rows_spec(facts.related@),
                    node.project_id@,
                )[k] as int].0].1,
            ),
        ),
        0 <= k < NODE_CALLERS_INLINE_MAX && k < rows.len() ==> occurs(
            called_by(related, rows, home),
            node_line_spec(related[rows[row_order(related, rows, home)[k] as int].0].1),
        ),
{
    lemma_occurs_grows();
    let own = related_rows_spec(facts.related@);
    let order = row_order(facts.related@, own, node.project_id@);
    if 0 <= k < limit && k < own.len() {
        let count: int = if own.len() <= limit {
            own.len() as int
        } else {
            limit as int
        };
        lemma_related_lines(facts.related@, own, order, "  "@, count, k);
    }
    if 0 <= k < NODE_CALLERS_INLINE_MAX && k < rows.len() {
        let count: int = if rows.len() <= NODE_CALLERS_INLINE_MAX {
            rows.len() as int
        } else {
            NODE_CALLERS_INLINE_MAX as int
        };
        lemma_related_lines(
            related,
            rows,
            row_order(related, rows, home),
            "    "@,
            count,
            k,
        );
    }
}

proof fn lemma_site_lines(sites: Seq<CallSite>, order: Seq<usize>, cache: SourceCache, count: int, k: int)
    requires
        0 <= k < count,
    ensures
        occurs(site_lines(sites, order, cache, count), node_line_spec(sites[order[k] as int].caller)),
    decreases count,
{
    lemma_occurs_grows();
    if k < count - 1 {
        lemma_site_lines(sites, order, cache, count - 1, k);
    }
}

/// Every call site of a symbol is listed, as far as the limit goes.
pub proof fn law_call_sites_are_listed_as_far_as_the_limit(
    node: Node,
    sites: Seq<CallSite>,
    cache: SourceCache,
    limit: u32,
    k: int,
)
    requires
        0 <= k < limit,
        k < site_order(sites, node.project_id@).len(),
    ensures
        occurs(
            callers_entry(node, sites, cache, limit),
            node_line_spec(sites[site_order(sites, node.project_id@)[k] as int].caller),
        ),
{
    let order = site_order(sites, node.project_id@);
    let count: int = if order.len() <= limit {
        order.len() as int
    } else {
        limit as int
    };
    lemma_site_lines(sites, order, cache, count, k);
    lemma_occurs_grows();
}

proof fn lemma_field_lines(fields: Seq<FieldView>, order: Seq<usize>, count: int, k: int)
    requires
        0 <= k < count,
    ensures
        occurs(field_lines(fields, order, count), fields[order[k] as int].text),
    decreases count,
{
    lemma_occurs_grows();
    if k < count - 1 {
        lemma_field_lines(fields, order, count - 1, k);
    }
}

proof fn lemma_texts_upto(texts: Seq<Seq<char>>, count: int, k: int)
    requires
        0 <= k < count,
    ensures
        occurs(texts_upto(texts, count), texts[k]),
    decreases count,
{
    lemma_occurs_grows();
    if k < count - 1 {
        lemma_texts_upto(texts, count - 1, k);
    }
}

/// A model is shown with all of its own columns and all of its relations.
pub proof fn law_a_model_is_shown_whole(walk: ModelView, k: int)
    requires
        walk.own.len() <= usize::MAX,
    ensures
        0 <= k < walk.own.len() ==> occurs(
            model_sections(walk),
            walk.own[own_order(walk.own)[k] as int].text,
        ),
        0 <= k < walk.relations.len() ==> occurs(model_sections(walk), walk.relations[k]),
{
    lemma_occurs_grows();
    if 0 <= k < walk.own.len() {
        lemma_field_lines(walk.own, own_order(walk.own), walk.own.len() as int, k);
    }
    if 0 <= k < walk.relations.len() {
        lemma_texts_upto(walk.relations, walk.relations.len() as int, k);
    }
}

proof fn lemma_plain_lines(nodes: Seq<Node>, count: int, k: int)
    requires
        0 <= k < count,
    ensures
        occurs(plain_lines(nodes, count), node_line_spec(nodes[k])),
    decreases count,
{
    lemma_occurs_grows();
    if k < count - 1 {
        lemma_plain_lines(nodes, count - 1, k);
    }
}

/// Every symbol that spans a line is listed, as many as there may be.
pub proof fn law_what_spans_a_line_is_listed(file: Seq<char>, line: u32, nodes: Seq<Node>, k: int)
    requires
        file.len() > 0,
        line > 0,
        0 <= k < nodes.len(),
        k < AT_RESULTS_MAX,
    ensures
        occurs(at_text_spec(file, line, nodes), node_line_spec(nodes[k])),
{
    let count: int = if nodes.len() <= AT_RESULTS_MAX {
        nodes.len() as int
    } else {
        AT_RESULTS_MAX as int
    };
    lemma_plain_lines(nodes, count, k);
    lemma_occurs_grows();
}

proof fn lemma_change_lines(scored: Seq<ScoredChange>, window: Seq<usize>, count: int, k: int)
    requires
        0 <= k < count,
    ensures
        occurs(change_lines(scored, window, count), scored[window[k] as int].line@),
    decreases count,
{
    lemma_occurs_grows();
    if k < count - 1 {
        lemma_change_lines(scored, window, count - 1, k);
    }
}

/// Every change on the page is listed, the riskiest first.
pub proof fn law_changes_are_listed_on_their_page(
    scored: Seq<ScoredChange>,
    notes: Seq<Seq<char>>,
    discovered: int,
    limit: u32,
    page: Page,
    generation: u64,
    k: int,
)
    requires
        discovered != 0,
        page.offset <= k < change_order(scored).len(),
        k < page.offset + limit,
    ensures
        occurs(
            changed_text_spec(scored, notes, discovered, limit, page, generation),
            scored[change_order(scored)[k] as int].line@,
        ),
{
    let order = change_order(scored);
    let window = slice_spec(order, page.offset as int, limit as int);
    assert(window[k - page.offset] == order[k]);
    lemma_change_lines(scored, window, window.len() as int, k - page.offset);
    lemma_occurs_grows();
}

proof fn lemma_result_lines(nodes: Seq<Node>, survivors: Seq<usize>, facts: Seq<FactsView>, risks: Seq<Fraction>, window: Seq<usize>, count: int, k: int)
    requires
        0 <= k < count,
    ensures
        occurs(result_lines(nodes, survivors, facts, risks, window, count), node_line_spec(nodes[survivors[window[k] as int] as int])),
    decreases count,
{
    lemma_occurs_grows();
    if k < count - 1 {
        lemma_result_lines(nodes, survivors, facts, risks, window, count - 1, k);
    }
}

/// Every result on the page of a search by criteria is listed, in the order asked for.
pub proof fn law_results_are_listed_on_their_page(
    criteria: Seq<CriterionView>,
    rank: Rank,
    nodes: Seq<Node>,
    facts: Seq<FactsView>,
    risks: Seq<Fraction>,
    limit: u32,
    page: Page,
    generation: u64,
    k: int,
)
    requires
        ({
            let columns = column_result(nodes, criteria);
            let field = derived_field(columns, facts, risks, criteria, criteria.len() as int);
            field.places.len() > 0 && page.offset <= k < ranked_places(
                nodes,
                columns.places,
                facts,
                risks,
                field.places,
                rank,
            ).len()
        }),
        k < page.offset + limit,
    ensures
        ({
            let columns = column_result(nodes, criteria);
            let field = derived_field(columns, facts, risks, criteria, criteria.len() as int);
            let ranked = ranked_places(nodes, columns.places, facts, risks, field.places, rank);
            occurs(
                winnow_text_spec(criteria, rank, nodes, facts, risks, limit, page, generation),
                node_line_spec(nodes[columns.places[ranked[k] as int] as int]),
            )
        }),
{
    let columns = column_result(nodes, criteria);
    let field = derived_field(columns, facts, risks, criteria, criteria.len() as int);
    let ranked = ranked_places(nodes, columns.places, facts, risks, field.places, rank);
    let window = slice_spec(ranked, page.offset as int, limit as int);
    assert(window[k - page.offset] == ranked[k]);
    lemma_result_lines(
        nodes,
        columns.places,
        facts,
        risks,
        window,
        window.len() as int,
        k - page.offset,
    );
    lemma_occurs_grows();
}

proof fn lemma_flow_rows_text(flows: Seq<FlowRow>, shown: Seq<int>, count: int, k: int)
    requires
        0 <= k < count,
    ensures
        occurs(flow_rows_text(flows, shown, count), flow_row_text(flows[shown[k]])),
    decreases count,
{
    lemma_occurs_grows();
    if k < count - 1 {
        lemma_flow_rows_text(flows, shown, count - 1, k);
    }
}

proof fn lemma_member_lines(members: Seq<MemberView>, order: Seq<usize>, count: int, k: int)
    requires
        0 <= k < count,
    ensures
        occurs(member_lines(members, order, count), members[order[k] as int].text),
    decreases count,
{
    lemma_occurs_grows();
    if k < count - 1 {
        lemma_member_lines(members, order, count - 1, k);
    }
}

proof fn lemma_commit_lines(hits: Seq<CommitHit>, count: int, k: int)
    requires
        0 <= k < count,
    ensures
        occurs(commit_lines(hits, count), commit_line(hits[k])),
    decreases count,
{
    lemma_occurs_grows();
    if k < count - 1 {
        lemma_commit_lines(hits, count - 1, k);
    }
}

/// Every commit on the page of a history is listed, in the order given.
pub proof fn law_commits_are_listed_on_their_page(
    projects: Seq<Project>,
    target: Option<&str>,
    hits: Seq<CommitHit>,
    limit: u32,
    page: Page,
    generation: u64,
    k: int,
)
    requires
        page.offset <= k < hits.len(),
        k < page.offset + limit,
    ensures
        occurs(
            history_text_spec(projects, target, None, hits, limit, page, generation),
            commit_line(hits[k]),
        ),
{
    let window = slice_spec(hits, page.offset as int, limit as int);
    assert(window[k - page.offset] == hits[k]);
    lemma_commit_lines(window, window.len() as int, k - page.offset);
    lemma_occurs_grows();
}

proof fn lemma_symbol_change_lines(hits: Seq<SymbolHit>, count: int, k: int)
    requires
        0 <= k < count,
    ensures
        occurs(symbol_change_lines(hits, count), change_line(hits[k])),
    decreases count,
{
    lemma_occurs_grows();
    if k < count - 1 {
        lemma_symbol_change_lines(hits, count - 1, k);
    }
}

/// Every recorded change of a symbol is listed.
pub proof fn law_every_change_of_a_symbol_is_listed(
    projects: Seq<Project>,
    symbol: Seq<char>,
    hits: Seq<SymbolHit>,
    populated: bool,
    k: int,
)
    requires
        0 <= k < hits.len(),
    ensures
        occurs(symbol_history_spec(projects, symbol, None, hits, populated), change_line(hits[k])),
{
    lemma_symbol_change_lines(hits, hits.len() as int, k);
    lemma_occurs_grows();
}

proof fn lemma_status_lines(rows: Seq<ProjectStatus>, now_ms: i64, count: int, k: int)
    requires
        0 <= k < count,
    ensures
        occurs(status_lines(rows, now_ms, count), rows[k].project.id@),
    decreases count,
{
    lemma_occurs_grows();
    if k < count - 1 {
        lemma_status_lines(rows, now_ms, count - 1, k);
    }
}

/// The status has a line for every project.
pub proof fn law_every_project_has_its_status(
    rows: Seq<ProjectStatus>,
    edges: u64,
    links: u64,
    now_ms: i64,
    k: int,
)
    requires
        0 <= k < rows.len(),
    ensures
        occurs(status_text_spec(rows, edges, links, now_ms), rows[k].project.id@),
{
    lemma_status_lines(rows, now_ms, rows.len() as int, k);
    lemma_occurs_grows();
}

/// Every flow of a list has its row, and every member of a slice its line.
pub proof fn law_flows_and_members_are_listed(
    flows: Seq<FlowRow>,
    shown: Seq<int>,
    members: Seq<MemberView>,
    order: Seq<usize>,
    k: int,
)
    ensures
        0 <= k < shown.len() ==> occurs(
            flow_rows_text(flows, shown, shown.len() as int),
            flow_row_text(flows[shown[k]]),
        ),
        0 <= k < order.len() ==> occurs(
            member_lines(members, order, order.len() as int),
            members[order[k] as int].text,
        ),
{
    if 0 <= k < shown.len() {
        lemma_flow_rows_text(flows, shown, shown.len() as int, k);
    }
    if 0 <= k < order.len() {
        lemma_member_lines(members, order, order.len() as int, k);
    }
}

} // verus!
