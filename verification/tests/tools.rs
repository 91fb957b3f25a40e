use constellation::cursor::{resolve, Page};
use constellation::graph::{EdgeKind, Language, Node, NodeKind, Project, Span};
use constellation::limits::{EXPLORE_BYTES_BASE, EXPLORE_BYTES_MAX, NODE_DETAIL_MAX, TESTS_SYMBOLS_MAX};
use constellation::rank::{explore_budget, path_penalty, rank_by_structure};
use constellation::risk::Fraction;
use constellation::tools::feature::{feature_text, FeatureWalk};
use constellation::tools::flows::{
    affected_flows_text, flow_section, flows_request, flows_text, is_flow_edge, is_owner_member,
    shortest_flow_path, FlowRow, FlowSort, FlowsStep,
};
use constellation::tools::history::{
    as_of_text, hash_cuts_short, history_text, paged_fetch, symbol_history_text, AliveSymbol,
    CommitHit, SymbolHit,
};
use constellation::tools::impact::{
    first_listed, impact_text, orphans_text, owner_name, subclass_ceiling, subclasses_text,
    tests_text, Coverage, ImpactWalk, OrphanRow, OwnerCoverage, SubclassWalk,
};
use constellation::tools::project::{
    aggregate_by_depth, files_text, links_text, overview_text, routes_text, FileRow, LinkEdge,
    PairCount, Pending, ProjectFiles, ProjectRoutes, ProjectSurvey, RouteEntry, RouteNames,
};
use constellation::tools::search::{seed_nodes, search_text, SeedStage, SeedStep};
use constellation::tools::status::{indexed_age, status_text, ProjectStatus, StaleFiles};
use constellation::tools::symbol::{
    at_text, callees_text, callers_text, model_text, models_among, node_text, CallSite,
    CalleeFacts, ModelWalk, SourceCache, SymbolDetail, UnboundCalls,
};
use constellation::tools::winnow::{
    changed_since, column_survivors, load_winnow_facts, read_request, risk_inputs, winnow_text,
    BulkFacts, Evaluated, IncomingRef, OutgoingRef,
};
use constellation::winnow::{parse, RawCriterion, WINNOW_CRITERIA_MAX};

fn copied(node: &Node) -> Node {
    Node {
        id: node.id.clone(),
        project_id: node.project_id.clone(),
        kind: node.kind,
        language: node.language,
        name: node.name.clone(),
        qualified_name: node.qualified_name.clone(),
        file_path: node.file_path.clone(),
        span: Span { start_line: node.span.start_line, end_line: node.span.end_line },
        signature: node.signature.clone(),
        docstring: node.docstring.clone(),
        decorators: node.decorators.clone(),
        in_test_file: node.in_test_file,
        in_generated_file: node.in_generated_file,
        marker: node.marker.clone(),
    }
}

fn node(id: &str, kind: NodeKind, name: &str, qualified: &str, file: &str, line: u32) -> Node {
    Node {
        id: id.to_string(),
        project_id: id.split("::").next().unwrap().to_string(),
        kind,
        language: Language::Python,
        name: name.to_string(),
        qualified_name: qualified.to_string(),
        file_path: file.to_string(),
        span: Span { start_line: line, end_line: line },
        signature: None,
        docstring: None,
        decorators: Vec::new(),
        in_test_file: file.contains("tests/"),
        in_generated_file: false,
        marker: String::new(),
    }
}

fn make_node(id: &str, kind: NodeKind, name: &str, qualified: &str, file: &str) -> Node {
    node(id, kind, name, qualified, file, 1)
}

fn model_node(name: &str, kind: NodeKind) -> Node {
    let mut found = make_node(
        &format!("blog::models.py::{name}"),
        kind,
        name,
        &format!("models.py::{name}"),
        "models.py",
    );
    found.signature = Some(format!("{name} = CharField()"));
    found
}

fn field_node(owner: &str, name: &str) -> Node {
    node(
        &format!("blog::models.py::{owner}.{name}"),
        NodeKind::Field,
        name,
        &format!("models.py::{owner}.{name}"),
        "models.py",
        2,
    )
}

fn blog() -> Project {
    Project {
        id: "blog".to_string(),
        name: "blog".to_string(),
        root_path: "/tmp/blog".to_string(),
        indexed_at: 0,
    }
}

/// The nodes of a graph and the relations between them, looked up as an index would.
struct Graph {
    nodes: Vec<Node>,
    edges: Vec<(String, String, EdgeKind, bool)>,
}

impl Graph {
    fn new(nodes: &[&Node], edges: &[(&Node, &Node, EdgeKind)]) -> Graph {
        Graph {
            nodes: nodes.iter().map(|found| copied(found)).collect(),
            edges: edges
                .iter()
                .map(|(source, target, kind)| (source.id.clone(), target.id.clone(), *kind, false))
                .collect(),
        }
    }

    fn at(&self, id: &str) -> Node {
        copied(self.nodes.iter().find(|found| found.id == id).unwrap())
    }

    fn callers(&self, id: &str) -> Vec<(EdgeKind, Node)> {
        self.edges
            .iter()
            .filter(|(_, target, _, _)| target == id)
            .map(|(source, _, kind, _)| (*kind, self.at(source)))
            .collect()
    }

    fn callees(&self, id: &str) -> Vec<(EdgeKind, Node)> {
        self.edges
            .iter()
            .filter(|(source, _, _, _)| source == id)
            .map(|(_, target, kind, _)| (*kind, self.at(target)))
            .collect()
    }

    fn reverse_targets(&self, id: &str) -> Vec<String> {
        self.edges
            .iter()
            .filter(|(source, _, _, reverse)| source == id && *reverse)
            .map(|(_, target, _, _)| target.clone())
            .collect()
    }

    fn covering(&self, id: &str) -> Vec<(EdgeKind, Node)> {
        self.callers(id).into_iter().filter(|(_, caller)| caller.in_test_file).collect()
    }

    fn seeds(&self, symbol: &str) -> Vec<Node> {
        let mut found: Vec<Node> = Vec::new();
        let mut stage = SeedStage::Start;

        loop {
            match seed_nodes(symbol, stage, &found) {
                SeedStep::Ask(next, text) => {
                    let by_name = matches!(next, SeedStage::Member | SeedStage::Named);
                    let by_qualified = matches!(next, SeedStage::Qualified);

                    found = self
                        .nodes
                        .iter()
                        .filter(|node| {
                            (by_name && node.name == text) || (by_qualified && node.qualified_name == text)
                        })
                        .map(copied)
                        .collect();
                    stage = next;
                }
                SeedStep::Answer(places) => {
                    return places.iter().map(|&place| copied(&found[place])).collect();
                }
            }
        }
    }

    fn model(&self, symbol: &str) -> String {
        let seeds = self.seeds(symbol);
        let mut walks: Vec<ModelWalk> = Vec::new();

        for place in models_among(&seeds) {
            let mut walk = ModelWalk::new(&seeds[place]);

            while let Some(id) = walk.next_class() {
                walk.read_class(&self.callees(&id), &self.reverse_targets(&id));
            }

            walks.push(walk);
        }

        model_text(symbol, &seeds, true, &walks)
    }

    fn feature(&self, symbol: &str) -> String {
        let seeds = self.seeds(symbol);
        let mut walk = FeatureWalk::new(&seeds);

        loop {
            let (id, upstream) = match walk.next_symbol() {
                Some((id, upstream)) => (id.to_string(), upstream),
                None => break,
            };
            let callers = if upstream { self.callers(&id) } else { Vec::new() };

            walk.read_symbol(&self.callees(&id), &callers);
        }

        feature_text(symbol, &seeds, &walk)
    }

    fn impact(&self, symbol: &str, depth: u32, page: &Page, generation: u64) -> String {
        let seeds = self.seeds(symbol);
        let mut walk = ImpactWalk::new(&seeds);

        while walk.wants_level(depth) {
            let level: Vec<(EdgeKind, Node)> =
                walk.frontier().iter().flat_map(|id| self.callers(id)).collect();

            walk.advance(&level);
        }

        impact_text(symbol, depth, &seeds, &walk, page, generation)
    }

    fn subclasses(&self, symbol: &str, limit: u32, page: &Page, generation: u64) -> String {
        let seeds = self.seeds(symbol);
        let mut walk = SubclassWalk::new(&seeds);
        let ceiling = subclass_ceiling(page.offset, limit);

        while walk.wants_hop(ceiling) {
            let level: Vec<(EdgeKind, Node)> =
                walk.frontier().iter().flat_map(|id| self.callers(id)).collect();

            walk.advance(&level);
        }

        subclasses_text(symbol, &seeds, &walk, limit, page, generation)
    }

    fn tests(&self, symbol: &str, limit: u32) -> String {
        let seeds = self.seeds(symbol);
        let coverage: Vec<Coverage> = seeds
            .iter()
            .take(TESTS_SYMBOLS_MAX)
            .map(|seed| {
                let owner = owner_name(&seed.qualified_name).and_then(|name| {
                    let owners = self.seeds(&name);

                    first_listed(&owners).map(|place| OwnerCoverage {
                        owner: copied(&owners[place]),
                        covering: self.covering(&owners[place].id),
                    })
                });

                Coverage { covering: self.covering(&seed.id), owner }
            })
            .collect();

        tests_text(symbol, &seeds, &coverage, limit)
    }

    fn winnow(
        &self,
        criteria: &[RawCriterion<'_>],
        rank: Option<&str>,
        limit: u32,
        page: &Page,
        generation: u64,
    ) -> String {
        let request = match read_request(criteria, rank) {
            Ok(request) => request,
            Err(text) => return text,
        };
        let survivors = column_survivors(&self.nodes, &request.criteria);
        let bulk = BulkFacts {
            incoming: self
                .edges
                .iter()
                .map(|(source, target, kind, _)| IncomingRef {
                    target_id: target.clone(),
                    source_id: source.clone(),
                    source_name: self.at(source).name,
                    kind: *kind,
                    covering: self.at(source).in_test_file,
                })
                .collect(),
            outgoing: self
                .edges
                .iter()
                .map(|(source, target, kind, _)| OutgoingRef {
                    source_id: source.clone(),
                    kind: *kind,
                    target_name: self.at(target).name,
                })
                .collect(),
            flows: Vec::new(),
            churn: Vec::new(),
            changed: Vec::new(),
        };
        let facts = load_winnow_facts(&self.nodes, &survivors, &bulk);
        let risks: Vec<Fraction> =
            survivors.iter().map(|_| Fraction { order: 0, text: "0.00".to_string() }).collect();

        winnow_text(
            &request,
            &Evaluated { nodes: &self.nodes, facts: &facts, risks: &risks },
            limit,
            page,
            generation,
        )
    }
}

fn first() -> Page {
    Page::default()
}

#[test]
fn explore_budget_grows_with_graph_size_then_caps() {
    let small = explore_budget(100);
    let large = explore_budget(50_000);

    assert!(small >= EXPLORE_BYTES_BASE, "a tiny graph still gets the base budget");
    assert!(large > small, "a bigger graph earns a bigger budget");
    assert!(large <= EXPLORE_BYTES_MAX, "the budget is capped");
    assert_eq!(explore_budget(usize::MAX), EXPLORE_BYTES_MAX, "saturates, never overflows");
}

#[test]
fn path_penalty_sinks_tests_and_generated_below_source() {
    assert_eq!(path_penalty(false, false), 0, "hand-written source ranks first");
    assert_eq!(path_penalty(false, true), 1, "tests rank below source");
    assert_eq!(path_penalty(true, false), 2, "generated ranks last");
    assert_eq!(path_penalty(true, true), 2, "generated outweighs test");
}

#[test]
fn sorting_by_penalty_is_stable_and_orders_source_first() {
    let mut paths = vec![
        ("app/migrations/0001_initial.py", true, false),
        ("app/tests/test_a.py", false, true),
        ("app/models.py", false, false),
        ("app/views.py", false, false),
    ];

    paths.sort_by_key(|&(_, generated, test)| path_penalty(generated, test));

    assert_eq!(
        paths.iter().map(|(path, _, _)| *path).collect::<Vec<_>>(),
        vec![
            "app/models.py",
            "app/views.py",
            "app/tests/test_a.py",
            "app/migrations/0001_initial.py",
        ],
        "source keeps input order, then tests, then generated",
    );
}

#[test]
fn structure_ranks_seeds_by_score_and_drops_what_is_unreached() {
    let ranked = rank_by_structure(&[0], &[90, 40, 20, 0]);

    assert_eq!(ranked.first(), Some(&0), "the seed ranks first");
    assert!(!ranked.contains(&3), "an unconnected node is excluded");
    assert_eq!(ranked, vec![0, 1, 2]);
}

#[test]
fn seeds_stand_first_in_whatever_order_they_are_given() {
    let scores = [5, 90, 3, 40];

    assert_eq!(rank_by_structure(&[2, 0], &scores), vec![0, 2, 1, 3]);
    assert_eq!(rank_by_structure(&[0, 2, 0], &scores), rank_by_structure(&[2, 0], &scores));
}

#[test]
fn a_symbol_nests_in_its_owner_by_one_segment() {
    let owner = make_node("A", NodeKind::Class, "A", "m.py::A", "m.py");
    let member = make_node("A.run", NodeKind::Method, "run", "m.py::A.run", "m.py");
    let deeper = make_node("A.B.run", NodeKind::Method, "run", "m.py::A.B.run", "m.py");
    let other = make_node("Ab", NodeKind::Class, "Ab", "m.py::Ab", "m.py");

    assert!(is_owner_member(&owner, &member) && is_owner_member(&member, &owner));
    assert!(!is_owner_member(&owner, &deeper));
    assert!(!is_owner_member(&owner, &other));
}

#[test]
fn model_text_assembles_inherited_fields_and_shadows_overrides() {
    let article = model_node("Article", NodeKind::Model);
    let base = model_node("TimeStampedModel", NodeKind::Model);
    let author = model_node("Author", NodeKind::Model);
    let own_title = field_node("Article", "title");
    let base_created = field_node("TimeStampedModel", "created_at");
    let base_title = field_node("TimeStampedModel", "title");

    let graph = Graph::new(
        &[&article, &base, &author, &own_title, &base_created, &base_title],
        &[
            (&article, &own_title, EdgeKind::Contains),
            (&article, &base, EdgeKind::Extends),
            (&article, &author, EdgeKind::RelatesTo),
            (&base, &base_created, EdgeKind::Contains),
            (&base, &base_title, EdgeKind::Contains),
        ],
    );

    let text = graph.model("Article");

    assert!(text.contains("bases: TimeStampedModel"), "the base is listed: {text}");
    assert!(text.contains("[own] title"), "the own field is marked own: {text}");
    assert!(text.contains("[TimeStampedModel] created_at"), "the inherited field is attributed: {text}");
    assert!(text.contains("fields (2)"), "the shadowed base 'title' is not double counted: {text}");
    assert!(text.contains("Author"), "the relation target is listed: {text}");

    assert!(
        !text.contains("[TimeStampedModel] title"),
        "the base 'title' is shadowed by the own field, not listed: {text}",
    );
}

#[test]
fn a_field_of_two_bases_is_counted_and_listed_once() {
    let a = model_node("A", NodeKind::Model);
    let b = model_node("B", NodeKind::Model);
    let c = model_node("C", NodeKind::Model);
    let b_title = field_node("B", "title");
    let c_title = field_node("C", "title");

    let graph = Graph::new(
        &[&a, &b, &c, &b_title, &c_title],
        &[
            (&a, &b, EdgeKind::Extends),
            (&b, &c, EdgeKind::Extends),
            (&b, &b_title, EdgeKind::Contains),
            (&c, &c_title, EdgeKind::Contains),
        ],
    );
    let text = graph.model("A");

    assert!(text.contains("fields (1):"), "{text}");
    assert!(text.contains("[B] title") && !text.contains("[C] title"), "{text}");
}

#[test]
fn the_field_of_the_nearer_subclass_wins_whatever_the_names() {
    let model = model_node("Model", NodeKind::Model);
    let near = model_node("Zoned", NodeKind::Model);
    let far = model_node("Audited", NodeKind::Model);
    let near_title = field_node("Zoned", "title");
    let far_title = field_node("Audited", "title");

    // The model names the base of its base too, ahead of its nearer base.
    let graph = Graph::new(
        &[&model, &near, &far, &near_title, &far_title],
        &[
            (&model, &far, EdgeKind::Extends),
            (&model, &near, EdgeKind::Extends),
            (&near, &far, EdgeKind::Extends),
            (&near, &near_title, EdgeKind::Contains),
            (&far, &far_title, EdgeKind::Contains),
        ],
    );
    let text = graph.model("Model");

    assert!(text.contains("fields (1):"), "{text}");
    assert!(text.contains("[Zoned] title") && !text.contains("[Audited] title"), "{text}");
}

#[test]
fn of_two_unrelated_bases_the_first_by_name_is_listed() {
    let model = model_node("Model", NodeKind::Model);
    let left = model_node("Left", NodeKind::Model);
    let right = model_node("Right", NodeKind::Model);
    let left_title = field_node("Left", "title");
    let right_title = field_node("Right", "title");

    let graph = Graph::new(
        &[&model, &left, &right, &left_title, &right_title],
        &[
            (&model, &right, EdgeKind::Extends),
            (&model, &left, EdgeKind::Extends),
            (&left, &left_title, EdgeKind::Contains),
            (&right, &right_title, EdgeKind::Contains),
        ],
    );
    let text = graph.model("Model");

    assert!(text.contains("fields (1):"), "{text}");
    assert!(text.contains("[Left] title") && !text.contains("[Right] title"), "{text}");
}

#[test]
fn model_text_labels_relation_direction() {
    let article = model_node("Article", NodeKind::Model);
    let author = model_node("Author", NodeKind::Model);
    let comment = model_node("Comment", NodeKind::Model);

    let mut graph = Graph::new(
        &[&article, &author, &comment],
        &[(&article, &author, EdgeKind::RelatesTo), (&article, &comment, EdgeKind::RelatesTo)],
    );
    graph.edges[1].3 = true;

    let text = graph.model("Article");

    assert!(text.contains("[->] Author"), "a forward FK is marked outward: {text}");
    assert!(text.contains("[<-] Comment"), "a reverse accessor is marked back: {text}");
}

fn route_entry(graph: &Graph, route: &Node, fragment: &str) -> RouteEntry {
    let callees = graph.callees(&route.id);
    let view_callees = callees
        .iter()
        .find(|(kind, _)| *kind == EdgeKind::RoutesTo)
        .map(|(_, view)| graph.callees(&view.id))
        .unwrap_or_default();

    RouteEntry { route: copied(route), fragment: fragment.to_string(), callees, view_callees }
}

#[test]
fn routes_text_filters_to_routes_matching_a_pattern() {
    let detail_route = make_node(
        "blog::urls.py::route::<int:pk>/detail/",
        NodeKind::Route,
        "detail",
        "urls.py::route::<int:pk>/detail/",
        "urls.py",
    );
    let list_route =
        make_node("blog::urls.py::route::list/", NodeKind::Route, "list", "urls.py::route::list/", "urls.py");
    let detail_view =
        make_node("blog::views.py::detail_view", NodeKind::View, "detail_view", "views.py::detail_view", "views.py");
    let list_view =
        make_node("blog::views.py::list_view", NodeKind::View, "list_view", "views.py::list_view", "views.py");
    let template = make_node(
        "blog::blog/detail.html",
        NodeKind::Template,
        "blog/detail.html",
        "blog/detail.html",
        "templates/blog/detail.html",
    );

    let graph = Graph::new(
        &[&detail_route, &list_route, &detail_view, &list_view, &template],
        &[
            (&detail_route, &detail_view, EdgeKind::RoutesTo),
            (&list_route, &list_view, EdgeKind::RoutesTo),
            (&detail_view, &template, EdgeKind::Renders),
        ],
    );
    let projects = [ProjectRoutes {
        project: blog(),
        routes: vec![
            route_entry(&graph, &detail_route, "<int:pk>/detail/"),
            route_entry(&graph, &list_route, "list/"),
        ],
        pending: Vec::new(),
    }];
    let names = RouteNames { reverse_names: &[], url_paths: &[] };

    let filtered = routes_text(&projects, &names, Some("blog"), Some("detail"), 250, &first(), 0);

    assert!(filtered.contains("detail_view"), "the matching route's view is shown: {filtered}");
    assert!(filtered.contains("blog/detail.html"), "and the template it renders: {filtered}");
    assert!(!filtered.contains("list_view"), "the non-matching route is filtered out: {filtered}");
    assert!(filtered.contains("matching \"detail\""), "the header notes the active filter: {filtered}");

    let unmatched = routes_text(&projects, &names, Some("blog"), Some("zzz"), 250, &first(), 0);

    assert!(unmatched.contains("no routes matching"), "an unmatched pattern says so: {unmatched}");
}

#[test]
fn routes_text_names_the_handler_a_route_could_not_bind() {
    let route = node(
        "blog::app/inventory/urls/json_urls.py::route::bulk-update/",
        NodeKind::Route,
        "bulk_update",
        "app/inventory/urls/json_urls.py::route::bulk-update/",
        "app/inventory/urls/json_urls.py",
        7,
    );
    let graph = Graph::new(&[&route], &[]);
    let projects = [ProjectRoutes {
        project: blog(),
        routes: vec![route_entry(&graph, &route, "bulk-update/")],
        pending: vec![Pending {
            route_id: route.id.clone(),
            reference: "json_views.bulk_update_view".to_string(),
            file_path: "app/inventory/urls/json_urls.py".to_string(),
            line: 7,
        }],
    }];
    let names = RouteNames { reverse_names: &[], url_paths: &[] };
    let text = routes_text(&projects, &names, Some("blog"), None, 250, &first(), 0);

    assert!(
        text.contains("(unresolved: json_views.bulk_update_view)"),
        "an unbound route names the handler it failed to bind, receiver and all: {text}",
    );

    assert!(
        text.contains("app/inventory/urls/json_urls.py:7 json_views.bulk_update_view"),
        "and the footer says which file and line to go read: {text}",
    );
}

#[test]
fn feature_text_disambiguates_an_overloaded_name() {
    let views: Vec<Node> = (0..4)
        .map(|index| {
            make_node(
                &format!("blog::app{index}/views.py::detail_view"),
                NodeKind::View,
                "detail_view",
                &format!("app{index}/views.py::detail_view"),
                &format!("app{index}/views.py"),
            )
        })
        .collect();
    let text = Graph::new(&views.iter().collect::<Vec<_>>(), &[]).feature("detail_view");

    assert!(text.contains("4 definitions"), "it reports the overload count: {text}");
    assert!(text.contains("too many to slice"), "it refuses to slice and asks to narrow: {text}");
    assert!(text.contains("app0/views.py::detail_view"), "it lists the file::name to pass: {text}");
}

#[test]
fn flow_traces_shortest_call_path_over_flow_edges_only() {
    let out_edges = vec![
        vec![(1u32, EdgeKind::Calls), (3u32, EdgeKind::Contains), (2u32, EdgeKind::Calls)],
        vec![(2u32, EdgeKind::Calls)],
        vec![],
        vec![],
    ];

    assert_eq!(shortest_flow_path(&out_edges, 0, 2), Some(vec![(2, EdgeKind::Calls)]));
    assert_eq!(shortest_flow_path(&out_edges, 2, 0), None);
    assert_eq!(shortest_flow_path(&out_edges, 0, 3), None);

    assert!(is_flow_edge(EdgeKind::Calls) && is_flow_edge(EdgeKind::RoutesTo));
    assert!(is_flow_edge(EdgeKind::Extends), "path advertises tracing inheritance");

    assert!(
        is_flow_edge(EdgeKind::ExtendsTemplate) && is_flow_edge(EdgeKind::IncludesTemplate),
        "path traces template inheritance (view -> page -> base layout)",
    );

    assert!(!is_flow_edge(EdgeKind::Contains) && !is_flow_edge(EdgeKind::Imports));
}

#[test]
fn flow_traces_multi_hop_when_no_direct_edge() {
    let out_edges = vec![vec![(1u32, EdgeKind::Calls)], vec![(2u32, EdgeKind::Calls)], vec![]];

    assert_eq!(
        shortest_flow_path(&out_edges, 0, 2),
        Some(vec![(1, EdgeKind::Calls), (2, EdgeKind::Calls)]),
    );
}

#[test]
fn feature_from_a_route_reaches_the_service_its_view_calls() {
    let route = make_node(
        "blog::urls.py::route::entry/update/",
        NodeKind::Route,
        "entry_update",
        "urls.py::route::entry/update/",
        "urls.py",
    );
    let view = make_node(
        "blog::views/json_views.py::entry_update_view",
        NodeKind::View,
        "entry_update_view",
        "views/json_views.py::entry_update_view",
        "views/json_views.py",
    );
    let service = make_node(
        "blog::app/services/service.py::EntryService.set_quantity",
        NodeKind::Method,
        "set_quantity",
        "app/services/service.py::EntryService.set_quantity",
        "app/services/service.py",
    );
    let graph = Graph::new(
        &[&route, &view, &service],
        &[(&route, &view, EdgeKind::RoutesTo), (&view, &service, EdgeKind::Calls)],
    );

    let from_route = graph.feature("entry_update");

    assert!(
        from_route.contains("set_quantity"),
        "the route's slice reaches the service its view calls: {from_route}",
    );

    let from_view = graph.feature("entry_update_view");

    assert!(from_view.contains("set_quantity"), "as it already did from the view: {from_view}");
}

#[test]
fn a_flow_trace_tries_every_definition_of_a_name() {
    let unconnected = node(
        "blog::a::_modal_view",
        NodeKind::View,
        "_modal_view",
        "a/views.py::_modal_view",
        "a/views.py",
        10,
    );
    let connected = node(
        "blog::b::_modal_view",
        NodeKind::View,
        "_modal_view",
        "b/views.py::_modal_view",
        "b/views.py",
        20,
    );
    let helper = node(
        "blog::b::_choices",
        NodeKind::Function,
        "_choices",
        "b/views.py::_choices",
        "b/views.py",
        30,
    );

    let nodes = vec![unconnected, connected, helper];
    let out_edges: Vec<Vec<(u32, EdgeKind)>> =
        vec![Vec::new(), vec![(2, EdgeKind::Calls)], Vec::new()];

    let text = flow_section(&nodes, &out_edges, &[0, 1, 2], "_modal_view _choices");

    assert!(
        text.contains("call paths among the named symbols"),
        "the connected definition is found even though it is not the first candidate: {text}",
    );

    assert!(!text.contains("no call path"), "no false negative is reported: {text}");
}

#[test]
fn an_unconnected_pair_still_says_so() {
    let left = node("blog::x::alpha", NodeKind::Function, "alpha", "x.py::alpha", "x.py", 1);
    let right = node("blog::x::beta", NodeKind::Function, "beta", "x.py::beta", "x.py", 2);

    let nodes = vec![left, right];
    let out_edges: Vec<Vec<(u32, EdgeKind)>> = vec![Vec::new(), Vec::new()];

    let text = flow_section(&nodes, &out_edges, &[0, 1], "alpha beta");

    assert!(
        text.contains("no call path"),
        "a genuinely unconnected pair is reported, not silently dropped: {text}",
    );
}

#[test]
fn a_class_and_its_own_member_are_not_reported_unconnected() {
    let owner = node("blog::x::Order", NodeKind::Class, "Order", "x.py::Order", "x.py", 1);
    let member = node("blog::x::Order.total", NodeKind::Method, "total", "x.py::Order.total", "x.py", 2);

    let nodes = vec![owner, member];
    let out_edges: Vec<Vec<(u32, EdgeKind)>> = vec![Vec::new(), Vec::new()];

    let text = flow_section(&nodes, &out_edges, &[0, 1], "Order total");

    assert!(
        text.is_empty(),
        "containment carries no call path, so nothing is claimed either way: {text}",
    );
}

#[test]
fn an_untested_member_points_at_its_owners_coverage() {
    let model = node("blog::m::Line", NodeKind::Model, "Line", "m.py::Line", "m.py", 1);
    let property = node(
        "blog::m::Line.is_fresh",
        NodeKind::Property,
        "is_fresh",
        "m.py::Line.is_fresh",
        "m.py",
        5,
    );
    let test = node(
        "blog::t::test_line",
        NodeKind::Function,
        "test_line",
        "tests/test_m.py::test_line",
        "tests/test_m.py",
        3,
    );

    let graph = Graph::new(&[&model, &property, &test], &[(&test, &model, EdgeKind::Calls)]);
    let text = graph.tests("Line.is_fresh", 10);

    assert!(
        text.contains("under-detected"),
        "the member says what it cannot know rather than asserting an absence: {text}",
    );

    assert!(
        text.contains("its owner Line has 1 covering test reference"),
        "and points at the coverage that is measurable: {text}",
    );
}

#[test]
fn an_untested_top_level_definition_still_says_so_plainly() {
    let orphan = node("blog::m::widget", NodeKind::Function, "widget", "m.py::widget", "m.py", 1);
    let text = Graph::new(&[&orphan], &[]).tests("widget", 10);

    assert!(
        text.contains("(no covering tests)"),
        "a free function's empty caller set is real evidence, and reads plainly: {text}",
    );

    assert!(!text.contains("under-detected"), "the hedge is not added where it does not apply: {text}");
}

#[test]
fn impact_counts_callers_apart_from_schema_relations() {
    let service = node("blog::s::LineService", NodeKind::Class, "LineService", "s.py::LineService", "s.py", 1);
    let model = node("blog::s::Line", NodeKind::Model, "Line", "s.py::Line", "s.py", 10);
    let other = node("blog::s::Trash", NodeKind::Model, "Trash", "s.py::Trash", "s.py", 20);
    let caller = node("blog::s::run", NodeKind::Function, "run", "s.py::run", "s.py", 30);

    let graph = Graph::new(
        &[&service, &model, &other, &caller],
        &[
            (&model, &service, EdgeKind::Instantiates),
            (&other, &model, EdgeKind::RelatesTo),
            (&caller, &model, EdgeKind::Calls),
        ],
    );
    let text = graph.impact("LineService", 3, &first(), 1);

    assert!(
        text.contains("2 non-test caller(s)"),
        "the model that instantiates it and the function that calls that model count: {text}",
    );

    assert!(
        text.contains("type/schema association"),
        "the foreign key is reported as an association, not as a caller: {text}",
    );
}

#[test]
fn subclasses_offers_a_cursor_into_its_tail() {
    let base = node("blog::b::Mixin", NodeKind::Class, "Mixin", "b.py::Mixin", "b.py", 1);
    let children: Vec<Node> = (0..5u32)
        .map(|index| {
            node(
                &format!("blog::b::Child{index}"),
                NodeKind::Class,
                &format!("Child{index}"),
                &format!("b.py::Child{index}"),
                "b.py",
                10 + index,
            )
        })
        .collect();

    let mut nodes: Vec<&Node> = vec![&base];
    nodes.extend(children.iter());

    let edges: Vec<(&Node, &Node, EdgeKind)> =
        children.iter().map(|child| (child, &base, EdgeKind::Extends)).collect();
    let text = Graph::new(&nodes, &edges).subclasses("Mixin", 2, &first(), 1);

    assert!(text.contains("2 shown of"), "the listing says how much of the set it is showing: {text}");
    assert!(text.contains("cursor="), "and offers a way to read the rest: {text}");
}

fn shop_node(kind: NodeKind, name: &str, file: &str, lines: u32) -> Node {
    let mut found = node(&format!("shop::{file}::{name}"), kind, name, &format!("{file}::{name}"), file, 1);

    found.span = Span { start_line: 1, end_line: lines.max(1) };
    found
}

fn shop() -> Graph {
    let order = shop_node(NodeKind::Model, "Order", "orders/models.py", 40);
    let invoice = shop_node(NodeKind::Model, "Invoice", "billing/models.py", 12);
    let view = shop_node(NodeKind::View, "checkout_view", "orders/views.py", 20);
    let covering = shop_node(NodeKind::Function, "test_order", "orders/tests/test_models.py", 6);

    Graph::new(
        &[&order, &invoice, &view, &covering],
        &[
            (&view, &order, EdgeKind::Instantiates),
            (&invoice, &order, EdgeKind::RelatesTo),
            (&covering, &order, EdgeKind::Tests),
        ],
    )
}

fn criterion<'a>(axis: &'a str, op: &'a str, value: &'a str) -> RawCriterion<'a> {
    RawCriterion { axis, op, value, window_days: None, fraction: None }
}

fn winnow(graph: &Graph, criteria: &[RawCriterion<'_>]) -> String {
    graph.winnow(criteria, None, 25, &first(), 0)
}

#[test]
fn each_axis_filters_in_isolation() {
    let store = shop();

    let by_kind = winnow(&store, &[criterion("kind", "eq", "model")]);

    assert!(by_kind.contains("Order"), "the kind axis keeps models: {by_kind}");
    assert!(by_kind.contains("Invoice"), "both of them: {by_kind}");
    assert!(!by_kind.contains("checkout_view"), "and drops the view: {by_kind}");

    let by_name = winnow(&store, &[criterion("name", "contains", "order")]);

    assert!(by_name.contains("Order"), "the name axis matches case-insensitively: {by_name}");

    let by_glob = winnow(&store, &[criterion("name", "matches", "*_view")]);

    assert!(by_glob.contains("checkout_view"), "the matches axis is a glob: {by_glob}");
    assert!(!by_glob.contains("Invoice"), "anchored at both ends: {by_glob}");

    let by_file = winnow(&store, &[criterion("file", "contains", "billing/")]);

    assert!(by_file.contains("Invoice"), "the file axis narrows by path: {by_file}");
    assert!(!by_file.contains("checkout_view"), "{by_file}");

    let by_lines = winnow(&store, &[criterion("lines", ">", "30")]);

    assert!(by_lines.contains("Order"), "the lines axis compares span length: {by_lines}");
    assert!(!by_lines.contains("Invoice"), "the short model is excluded: {by_lines}");
}

#[test]
fn the_edge_axes_read_real_edges() {
    let store = shop();

    let relates = winnow(&store, &[criterion("relates_to", "contains", "Order")]);

    assert!(relates.contains("Invoice"), "the model with the foreign key: {relates}");
    assert!(!relates.contains("checkout_view"), "{relates}");

    let called_by = winnow(&store, &[criterion("called_by", "contains", "checkout_view")]);

    assert!(called_by.contains("Order"), "what the view instantiates: {called_by}");
}

#[test]
fn coverage_is_read_through_the_shared_predicate() {
    let store = shop();

    let tested = winnow(&store, &[criterion("kind", "eq", "model"), criterion("tested", "eq", "true")]);

    assert!(tested.contains("Order"), "the model a TestCase binds to is covered: {tested}");
    assert!(!tested.contains("Invoice"), "the uncovered one is filtered out: {tested}");

    let untested =
        winnow(&store, &[criterion("kind", "eq", "model"), criterion("tested", "eq", "false")]);

    assert!(untested.contains("Invoice"), "and appears in the complement: {untested}");
    assert!(!untested.contains("| Order"), "{untested}");
}

#[test]
fn criteria_are_anded_across_three_axes() {
    let text = winnow(
        &shop(),
        &[
            criterion("kind", "eq", "model"),
            criterion("relates_to", "contains", "Order"),
            criterion("tested", "eq", "false"),
        ],
    );

    assert!(text.contains("Invoice"), "the one symbol satisfying all three: {text}");
    assert!(!text.contains("checkout_view"), "{text}");

    assert!(
        text.contains("AND"),
        "the response restates the composed query so the agent sees what was applied: {text}",
    );
}

#[test]
fn an_unknown_axis_is_rejected_with_the_valid_values() {
    let text = winnow(&shop(), &[criterion("complexity", "gt", "10")]);

    assert!(text.contains("unknown axis"), "the criterion is refused, not ignored: {text}");
    assert!(text.contains("Valid axes"), "and the alternatives are listed: {text}");
    assert!(text.contains("lines"), "including the honest proxy for it: {text}");
}

#[test]
fn an_unknown_op_and_an_unsupported_op_both_name_the_alternatives() {
    let store = shop();

    let unknown = winnow(&store, &[criterion("name", "startswith", "Order")]);

    assert!(unknown.contains("unknown op"), "{unknown}");

    let unsupported = winnow(&store, &[criterion("kind", "contains", "model")]);

    assert!(unsupported.contains("does not accept"), "{unsupported}");
    assert!(unsupported.contains("It accepts"), "{unsupported}");
}

#[test]
fn too_many_criteria_is_refused_rather_than_truncated() {
    let criteria: Vec<RawCriterion<'_>> =
        (0..=WINNOW_CRITERIA_MAX).map(|_| criterion("kind", "eq", "model")).collect();

    let text = winnow(&shop(), &criteria);

    assert!(text.contains("at most"), "the cap is stated: {text}");
    assert!(text.contains("Split the query"), "and a way forward given: {text}");
}

#[test]
fn an_empty_result_reports_the_surviving_count_after_each_criterion() {
    let text = winnow(
        &shop(),
        &[criterion("kind", "eq", "model"), criterion("name", "eq", "NoSuchModel")],
    );

    assert!(text.contains("no symbols match"), "{text}");

    assert!(
        text.contains("kind eq model -> "),
        "the first criterion's survivors are counted: {text}",
    );

    assert!(
        text.contains("name eq nosuchmodel -> 0"),
        "and the row that reaches zero is visible: {text}",
    );
}

#[test]
fn an_unknown_rank_lists_the_valid_ranks() {
    let text = shop().winnow(
        &[criterion("kind", "eq", "model")],
        Some("popularity"),
        25,
        &first(),
        0,
    );

    assert!(text.contains("unknown rank"), "{text}");
    assert!(text.contains("criticality"), "the valid ranks are listed: {text}");
}

#[test]
fn a_page_offers_a_cursor_and_the_next_page_continues() {
    let store = shop();
    let criteria = [criterion("kind", "in", "model,view,function")];

    let opening = store.winnow(&criteria, Some("name"), 2, &first(), 7);

    assert!(opening.contains("next: cursor=2.7"), "a truncated page offers its tail: {opening}");

    let page = resolve(Some("2.7"), 7);
    let second = store.winnow(&criteria, Some("name"), 2, &page, 7);

    assert!(!second.contains("next: cursor"), "the last page offers none: {second}");

    let stale = resolve(Some("2.7"), 8);
    let restarted = store.winnow(&criteria, Some("name"), 2, &stale, 8);

    assert!(
        restarted.contains("cursor expired"),
        "a cursor issued against an older index is reported, not silently honoured: {restarted}",
    );
}

#[test]
fn the_same_query_renders_identically_twice() {
    let store = shop();
    let criteria = [criterion("kind", "eq", "model")];

    assert_eq!(
        winnow(&store, &criteria),
        winnow(&store, &criteria),
        "two runs over one index emit byte-identical output",
    );
}

#[test]
fn a_definition_shows_its_callers_and_callees() {
    let order = node("blog::m::Order", NodeKind::Model, "Order", "m.py::Order", "m.py", 1);
    let view = node("blog::v::checkout", NodeKind::View, "checkout", "v.py::checkout", "v.py", 4);
    let graph = Graph::new(&[&order, &view], &[(&view, &order, EdgeKind::Instantiates)]);
    let seeds = graph.seeds("Order");
    let details: Vec<SymbolDetail> = seeds
        .iter()
        .take(NODE_DETAIL_MAX)
        .map(|seed| SymbolDetail {
            callers: graph.callers(&seed.id),
            callees: graph.callees(&seed.id),
            dark: 0,
        })
        .collect();
    let text = node_text("Order", &seeds, &details);

    assert!(text.contains("m.py"), "{text}");
    assert!(text.contains("checkout"), "the caller is listed: {text}");
    assert!(node_text("Missing", &[], &[]).contains("Missing"));
}

#[test]
fn callees_and_callers_are_listed_by_edge() {
    let order = node("blog::m::Order", NodeKind::Model, "Order", "m.py::Order", "m.py", 1);
    let view = node("blog::v::checkout", NodeKind::View, "checkout", "v.py::checkout", "v.py", 4);
    let graph = Graph::new(&[&order, &view], &[(&view, &order, EdgeKind::Instantiates)]);

    let seeds = graph.seeds("checkout");
    let facts = [CalleeFacts { related: graph.callees(&view.id), unresolved: vec![("helper".to_string(), 9)] }];
    let callees = callees_text("checkout", &seeds, &facts, 25);

    assert!(callees.contains("Order"), "{callees}");
    assert!(callees.contains("helper"), "an unbound call is named: {callees}");

    let seeds = graph.seeds("Order");
    let sites = [vec![CallSite { kind: EdgeKind::Instantiates, caller: copied(&view), line: 5 }]];
    let mut cache = SourceCache::new();

    assert!(cache.wants(&view));
    cache.hold(&view, Some("\n\n\n\n    order = Order()\n".to_string()));
    assert!(!cache.wants(&view));

    let calls = UnboundCalls { home: Vec::new(), anywhere: Vec::new() };
    let callers = callers_text("Order", &seeds, &sites, &calls, 1, &cache, 25);

    assert!(callers.contains("order = Order()"), "the call site is quoted: {callers}");
}

#[test]
fn a_line_names_what_encloses_it() {
    let order = node("blog::m::Order", NodeKind::Model, "Order", "m.py::Order", "m.py", 1);
    let text = at_text("m.py", 1, &[order]);

    assert!(text.contains("Order"), "{text}");
    assert!(at_text("m.py", 9, &[]).contains("m.py"));
}

#[test]
fn a_search_lists_what_it_found_then_what_reads_alike() {
    let order = node("blog::m::Order", NodeKind::Model, "Order", "m.py::Order", "m.py", 1);
    let text = search_text(&[copied(&order)], 1, &[], "Order", 20, &first(), 0);

    assert!(text.contains("Order"), "{text}");

    let fuzzy = search_text(&[], 0, &[order], "ordr", 20, &first(), 0);

    assert!(fuzzy.contains("Order"), "a subsequence is close enough: {fuzzy}");
}

#[test]
fn an_orphan_the_framework_reaches_is_left_out() {
    let dead = node("blog::m::dead", NodeKind::Function, "dead", "m.py::dead", "m.py", 1);
    let hook = node("blog::m::ready", NodeKind::Method, "ready", "m.py::Config.ready", "m.py", 2);
    let rows = [
        OrphanRow { node: dead, framework_reached: false, dispatches: 0 },
        OrphanRow { node: hook, framework_reached: true, dispatches: 0 },
    ];
    let text = orphans_text(&[blog()], Some("blog"), &rows, 20, &first(), 0);

    assert!(text.contains("dead"), "{text}");
    assert!(!text.contains("ready"), "{text}");
}

fn flow(name: &str) -> FlowRow {
    FlowRow {
        project_id: "blog".to_string(),
        name: name.to_string(),
        entry_kind: "view".to_string(),
        node_count: 5,
        file_count: 2,
        app_count: 1,
        project_count: 0,
        depth_max: 3,
        criticality: "0.50".to_string(),
        truncated: false,
    }
}

#[test]
fn flows_are_listed_or_their_absence_explained() {
    let text = flows_text(&[flow("checkout"), flow("refund")], true, None, Some("check"), 25);

    assert!(text.contains("checkout"), "{text}");
    assert!(!text.contains("refund"), "{text}");

    let never = flows_text(&[], false, None, None, 25);
    let none = flows_text(&[], true, None, None, 25);

    assert_ne!(never, none, "a pass that never ran is told apart from an empty result");

    let touched = affected_flows_text(3, &[flow("checkout")], true, None, false);

    assert!(touched.contains("checkout"), "{touched}");
}

#[test]
fn a_flow_listing_refuses_what_it_does_not_know() {
    match flows_request(&[blog()], Some("nope"), None, None, 25) {
        FlowsStep::Answer(text) => assert_eq!(text, "no project named \"nope\""),
        FlowsStep::Fetch { .. } => panic!("an unknown project is answered at once"),
    }

    match flows_request(&[blog()], Some("blog"), None, Some("beauty"), 25) {
        FlowsStep::Answer(text) => {
            assert_eq!(text, "unknown sort \"beauty\"; valid values are criticality, size, name")
        }
        FlowsStep::Fetch { .. } => panic!("an unknown sort is answered at once"),
    }

    match flows_request(&[blog()], Some("blog"), Some("x"), Some("size"), 25) {
        FlowsStep::Fetch { project, sort, count } => {
            assert_eq!((project, count), (Some(0), 4_000));
            assert!(matches!(sort, FlowSort::Size));
        }
        FlowsStep::Answer(text) => panic!("{text}"),
    }
}

#[test]
fn history_lists_commits_and_a_date_lists_what_was_alive() {
    let hits = [CommitHit {
        committed_at: 1_700_000_000,
        commit_hash: "0123456789abcdef".to_string(),
        insertions: 3,
        deletions: 1,
        files_changed: 2,
        author: "Sam".to_string(),
        summary: "Fix totals".to_string(),
    }];
    let text = history_text(&[blog()], None, None, &hits, 40, &first(), 0);

    assert!(text.contains("2023-11-14"), "{text}");
    assert!(text.contains("01234567") && !text.contains("012345678"), "{text}");
    assert!(paged_fetch(0, 40) >= 40);

    let revisions = [SymbolHit {
        committed_at: 0,
        commit_hash: "0123456789abcdef".to_string(),
        change: "added".to_string(),
        kind: "model".to_string(),
        qualified_name: "m.py::Order".to_string(),
        signature: None,
    }];
    let evolution = symbol_history_text(&[blog()], "Order", None, &revisions, true, 40);

    assert!(evolution.contains("added") && evolution.contains("1970-01-01"), "{evolution}");

    let alive = [AliveSymbol {
        file_path: "m.py".to_string(),
        kind: "model".to_string(),
        qualified_name: "m.py::Order".to_string(),
        signature: None,
    }];
    let then = as_of_text(&[blog()], "2023-11-14", None, None, &alive, 200, &first(), 0);

    assert!(then.contains("Order"), "{then}");
}

#[test]
fn status_names_stale_files_and_age() {
    let text = status_text(
        &[ProjectStatus {
            project: blog(),
            nodes: 12,
            history_commits: 0,
            symbol_revisions: 0,
            flows: 0,
            stale: Some(StaleFiles { changed: 2, removed: 1 }),
        }],
        30,
        4,
        60_000,
    );

    assert!(text.contains("blog") && text.contains("12"), "{text}");
    assert_ne!(indexed_age(86_400_000, 0), indexed_age(60_000, 0));
}

#[test]
fn files_links_and_overview_cover_the_project() {
    let row = || ProjectFiles {
        project: blog(),
        files: vec![
            FileRow { path: "app/models.py".to_string(), node_count: 4, generated: false, test: false },
            FileRow { path: "app/tests/test_a.py".to_string(), node_count: 2, generated: false, test: true },
        ],
    };
    let text = files_text(&[row()], None, None, &first(), 0);

    assert!(text.contains("app"), "{text}");

    let matched = files_text(&[row()], None, Some("models"), &first(), 0);

    assert!(matched.contains("app/models.py") && !matched.contains("test_a"), "{matched}");

    let survey = ProjectSurvey { row: row(), counts: vec![(NodeKind::Model, 3)] };
    let overview = overview_text(&[survey], 0, None);

    assert!(overview.contains("blog"), "{overview}");

    let link = LinkEdge {
        source: node("blog::a", NodeKind::Function, "a", "a.py::a", "a.py", 1),
        target: node("shop::b", NodeKind::Function, "b", "b.py::b", "b.py", 2),
        kind: EdgeKind::Imports,
    };
    let pair = PairCount { source: "blog".to_string(), target: "shop".to_string(), count: 1 };
    let links = links_text(1, &[pair], &[link], None, 100, &first(), 0);

    assert!(links.contains("blog") && links.contains("shop"), "{links}");
}

#[test]
fn the_order_of_criteria_changes_no_result() {
    let forwards = [criterion("kind", "eq", "model"), criterion("tested", "eq", "false")];
    let backwards = [criterion("tested", "eq", "false"), criterion("kind", "eq", "model")];

    assert_eq!(winnow(&shop(), &forwards), winnow(&shop(), &backwards));
}

#[test]
fn a_hash_is_cut_only_between_characters() {
    assert!(hash_cuts_short("0123456789abcdef"));
    assert!(hash_cuts_short("0123"));
    assert!(!hash_cuts_short("0123456\u{e9}89"));
}

#[test]
fn a_winnowed_symbol_has_no_diff_to_measure() {
    let graph = shop();
    let request = read_request(&[criterion("kind", "eq", "model")], None).unwrap();
    let survivors = column_survivors(&graph.nodes, &request.criteria);
    let bulk = BulkFacts {
        incoming: Vec::new(),
        outgoing: Vec::new(),
        flows: Vec::new(),
        churn: Vec::new(),
        changed: Vec::new(),
    };
    let facts = load_winnow_facts(&graph.nodes, &survivors, &bulk);
    let inputs = risk_inputs(&facts[0], Some("token".to_string()));

    assert_eq!(inputs.changed_lines, 0);
    assert_eq!(inputs.covering_tests, 0);
    assert_eq!(inputs.security_keyword.as_deref(), Some("token"));
}

#[test]
fn directories_hold_every_file_and_symbol() {
    let file = |path: &str, node_count| FileRow {
        path: path.to_string(),
        node_count,
        generated: false,
        test: false,
    };
    let rows = aggregate_by_depth(
        &[
            file("manage.py", 1),
            file("app/orders/models.py", 5),
            file("app/orders/views.py", 3),
            file("app/urls.py", 2),
        ],
        2,
    );
    let named: Vec<(&str, usize, i128)> =
        rows.iter().map(|row| (row.name.as_str(), row.files, row.symbols)).collect();

    assert_eq!(named, vec![("app/orders", 2, 8), ("app", 1, 2), ("(root)", 1, 1)]);
}

#[test]
fn a_page_of_routes_may_end_inside_a_project() {
    let routes = |project: &str| -> ProjectRoutes {
        let entries = (1..=2)
            .map(|line| RouteEntry {
                route: node(
                    &format!("{project}::{line}"),
                    NodeKind::Route,
                    "route",
                    &format!("urls.py::route::{project}{line}"),
                    "urls.py",
                    line,
                ),
                fragment: format!("{project}{line}"),
                callees: Vec::new(),
                view_callees: Vec::new(),
            })
            .collect();
        let mut found = blog();
        found.id = project.to_string();

        ProjectRoutes { project: found, routes: entries, pending: Vec::new() }
    };
    let projects = [routes("left"), routes("right")];
    let names = RouteNames { reverse_names: &[], url_paths: &[] };
    let head = routes_text(&projects, &names, None, None, 3, &first(), 7);
    let tail = routes_text(&projects, &names, None, None, 3, &resolve(Some("3.7"), 7), 7);

    for row in ["    left1 ", "    left2 ", "    right1 "] {
        assert!(head.contains(row) && !tail.contains(row), "{head}\n{tail}");
    }

    assert!(head.contains("cursor=3.7"), "{head}");
    assert!(tail.contains("    right2 ") && !tail.contains("cursor="), "{tail}");
}

/// A project with so many routes, none of them bound to its handler.
fn unbound_routes(project: &str, count: u32) -> ProjectRoutes {
    let mut found = blog();
    found.id = project.to_string();
    let mut routes = Vec::new();
    let mut pending = Vec::new();

    for line in 1..=count {
        let id = format!("{project}::{line}");
        let qualified = format!("urls.py::route::{project}{line}");

        pending.push(Pending {
            route_id: id.clone(),
            reference: format!("{project}_handler_{line}"),
            file_path: "urls.py".to_string(),
            line,
        });

        routes.push(RouteEntry {
            route: node(&id, NodeKind::Route, "route", &qualified, "urls.py", line),
            fragment: format!("{project}{line}"),
            callees: Vec::new(),
            view_callees: Vec::new(),
        });
    }

    ProjectRoutes { project: found, routes, pending }
}

#[test]
fn a_page_that_cuts_a_project_short_goes_on_there() {
    let projects = [unbound_routes("left", 251), unbound_routes("right", 1)];
    let names = RouteNames { reverse_names: &[], url_paths: &[] };
    let head = routes_text(&projects, &names, None, None, 400, &first(), 7);
    let tail = routes_text(&projects, &names, None, None, 400, &resolve(Some("250.7"), 7), 7);

    assert!(head.contains("    left250 ") && !head.contains("    left251 "), "{head}");
    assert!(!head.contains("    right1 "), "what is left of one project comes first: {head}");
    assert!(head.contains("cursor=250.7"), "{head}");
    assert!(tail.contains("    left251 ") && tail.contains("    right1 "), "{tail}");
    assert!(!tail.contains("cursor="), "{tail}");
}

#[test]
fn the_footer_names_the_routes_the_page_printed() {
    let projects = [unbound_routes("left", 3)];
    let names = RouteNames { reverse_names: &[], url_paths: &[] };
    let head = routes_text(&projects, &names, None, None, 2, &first(), 7);

    assert!(head.contains("(2 route handler(s) unresolved:"), "{head}");
    assert!(head.contains("urls.py:2 left_handler_2"), "{head}");
    assert!(!head.contains("left_handler_3"), "{head}");
}

#[test]
fn pairs_with_more_links_are_listed_first() {
    let link = |source: &str, target: &str| {
        let mut from = node("a", NodeKind::Function, "a", "a.py::a", "a.py", 1);
        let mut to = node("b", NodeKind::Function, "b", "b.py::b", "b.py", 2);

        from.project_id = source.to_string();
        to.project_id = target.to_string();

        LinkEdge { source: from, target: to, kind: EdgeKind::Imports }
    };
    let pair = |source: &str, target: &str, count| PairCount {
        source: source.to_string(),
        target: target.to_string(),
        count,
    };
    let text = links_text(
        9,
        &[pair("blog", "shop", 2), pair("shop", "core", 7)],
        &[link("blog", "shop"), link("blog", "shop"), link("shop", "core")],
        None,
        100,
        &first(),
        0,
    );
    let small = text.find("blog -> shop: 2").unwrap();
    let large = text.find("shop -> core: 7").unwrap();

    assert!(large < small, "by the counts in the headings: {text}");
}

#[test]
fn flows_are_grouped_by_project_in_first_seen_order() {
    let of = |project: &str, name: &str| {
        let mut row = flow(name);
        row.project_id = project.to_string();

        row
    };
    let rows = [of("shop", "checkout"), of("blog", "publish"), of("shop", "refund")];
    let text = flows_text(&rows, true, None, None, 25);
    let places: Vec<usize> = ["[shop]", "checkout", "refund", "[blog]", "publish"]
        .iter()
        .map(|part| text.find(part).unwrap())
        .collect();

    assert!(places.windows(2).all(|pair| pair[0] < pair[1]), "{text}");
    assert_eq!(text.matches("[shop]").count(), 1, "{text}");
}

#[test]
fn a_flow_is_found_by_its_entry_kind_in_any_case() {
    let mut row = flow("nightly");
    row.entry_kind = "Management_Command".to_string();
    let text = flows_text(&[row], true, None, Some("MANAGEMENT"), 25);

    assert!(text.contains("nightly"), "{text}");
}

#[test]
fn what_was_alive_is_grouped_by_file() {
    let symbol = |file: &str, name: &str| AliveSymbol {
        file_path: file.to_string(),
        kind: "model".to_string(),
        qualified_name: format!("{file}::{name}"),
        signature: None,
    };
    let alive = [symbol("m.py", "Order"), symbol("n.py", "Line"), symbol("m.py", "Item")];
    let text = as_of_text(&[blog()], "2023-11-14", None, None, &alive, 200, &first(), 0);

    assert!(
        text.ends_with("m.py:\n  model m.py::Order\n  model m.py::Item\nn.py:\n  model n.py::Line\n"),
        "{text}",
    );
}

#[test]
fn of_several_dates_the_latest_is_asked_for() {
    let early = criterion("changed_since", "gte", "2024-01-01");
    let late = criterion("changed_since", "gte", "2024-02-29");

    assert_eq!(changed_since(&parse(&[early, late]).unwrap()), Some(1_709_164_800));

    let early = criterion("changed_since", "gte", "2024-01-01");
    let late = criterion("changed_since", "gte", "2024-02-29");

    assert_eq!(changed_since(&parse(&[late, early]).unwrap()), Some(1_709_164_800));
    assert_eq!(changed_since(&parse(&[criterion("kind", "eq", "model")]).unwrap()), None);
}

#[test]
fn facts_go_by_the_id_of_a_candidate() {
    let called = node("blog::a", NodeKind::Function, "a", "a.py::a", "a.py", 1);
    let nodes = [copied(&called), copied(&called)];
    let bulk = BulkFacts {
        incoming: vec![IncomingRef {
            target_id: "blog::a".to_string(),
            source_id: "blog::b".to_string(),
            source_name: "b".to_string(),
            kind: EdgeKind::Calls,
            covering: false,
        }],
        outgoing: vec![OutgoingRef {
            source_id: "blog::a".to_string(),
            kind: EdgeKind::Calls,
            target_name: "c".to_string(),
        }],
        flows: Vec::new(),
        churn: Vec::new(),
        changed: Vec::new(),
    };
    let facts = load_winnow_facts(&nodes, &[0, 1], &bulk);

    for found in &facts {
        assert_eq!((found.caller_count, found.caller_names.as_slice()), (1, ["b".to_string()].as_slice()));
        assert_eq!(found.outgoing, vec![(EdgeKind::Calls, "c".to_string())]);
    }
}
