use constellation::args::{capped_limit, effective_limit};
use constellation::graph::{EdgeKind, Language, Node, NodeKind, Span};
use constellation::risk::{Fraction, RiskFactors, RiskInputs};
use constellation::server::{
    explore_facts, explore_response, instructions, no_match, path_text, paths_named, refused_base,
    response_facts, symbol_facts, tests_facts, trace_path, ExploreCache, GraphEdge, PathEnds,
};
use constellation::tools::changed::{
    changed_candidates, changed_text, has_working_tree_marker, measure_change, CallerFacts,
    ChangeFacts, ScoredChange, TouchedFile,
};
use constellation::tools::search::{
    content_seed_nodes, coverage_candidates, explore_coverage_note, explore_uncovered_seeds,
    is_subsequence, search_fetch,
};

fn node(name: &str, file: &str, kind: NodeKind, start: u32, end: u32) -> Node {
    Node {
        id: format!("blog::{name}"),
        project_id: "blog".to_string(),
        kind,
        language: Language::Python,
        name: name.to_string(),
        qualified_name: format!("{file}::{name}"),
        file_path: file.to_string(),
        span: Span { start_line: start, end_line: end },
        signature: None,
        docstring: None,
        decorators: Vec::new(),
        in_test_file: false,
        in_generated_file: false,
        marker: String::new(),
    }
}

fn edge(source: &str, target: &str, kind: EdgeKind) -> GraphEdge {
    GraphEdge { source: format!("blog::{source}"), target: format!("blog::{target}"), kind }
}

fn chain() -> ExploreCache {
    ExploreCache::build(
        vec![
            node("view", "v.py", NodeKind::View, 1, 2),
            node("service", "s.py", NodeKind::Method, 1, 2),
            node("model", "m.py", NodeKind::Model, 1, 2),
            node("alone", "a.py", NodeKind::Function, 1, 2),
        ],
        &[
            edge("view", "service", EdgeKind::Calls),
            edge("service", "model", EdgeKind::Instantiates),
            edge("service", "gone", EdgeKind::Calls),
        ],
        7,
    )
}

#[test]
fn a_cache_finds_every_node_by_id() {
    let cache = chain();

    for (place, found) in cache.nodes.iter().enumerate() {
        assert_eq!(cache.position(&found.id), Some(place));
    }

    assert_eq!(cache.position("blog::gone"), None);
    assert_eq!(cache.generation, 7);
    assert_eq!(
        cache.positions(&["blog::model".to_string(), "blog::gone".to_string()]),
        vec![2],
        "an id that the graph lost is passed over",
    );
}

#[test]
fn a_path_is_traced_either_way() {
    let cache = chain();
    let ends = |from: usize, to: usize| PathEnds {
        from_count: 1,
        to_count: 1,
        from_positions: vec![from],
        to_positions: vec![to],
    };
    let forward = trace_path(&cache, &[0], &[2]).unwrap();

    assert!(!forward.reversed);
    assert_eq!(forward.hops.len(), 2);

    let backward = trace_path(&cache, &[2], &[0]).unwrap();

    assert!(backward.reversed);
    assert!(trace_path(&cache, &[0], &[3]).is_none());

    // The first pair connects only backwards, the second forwards.
    let preferred = trace_path(&cache, &[2, 0], &[1]).unwrap();

    assert!(!preferred.reversed, "any way forwards is preferred");
    assert_eq!((preferred.source, preferred.hops.len()), (0, 1));

    let text = path_text(&cache, &ends(0, 2), "view", "model");

    assert!(text.contains("service"), "{text}");
    assert_ne!(path_text(&cache, &ends(0, 3), "view", "alone"), text);
}

#[test]
fn a_refused_base_is_explained() {
    assert_eq!(refused_base(None), None);
    assert_eq!(refused_base(Some("main")), None);
    assert!(refused_base(Some("--output=x")).unwrap().contains("--output=x"));
}

#[test]
fn responses_are_assembled_and_read_for_hints() {
    assert_eq!(no_match("x\"y"), "no symbols matching \"x\\\"y\"");
    assert_eq!(explore_response("a\n", "b\n", "c\n", ""), "a\nb\nc\n");

    let nodes = [node("Order", "m.py", NodeKind::Model, 1, 2)];
    let facts = explore_facts(&nodes, &[0], "Order", "note", "body");

    assert_eq!(facts.named_symbol.as_deref(), Some("Order"));
    assert!(facts.named_model && facts.has_uncovered_symbol && !facts.at_byte_budget);
    assert_eq!(symbol_facts("x").named_symbol.as_deref(), Some("x"));
    assert!(tests_facts("x", "(no covering tests)").has_uncovered_symbol);
    assert!(!response_facts("no tests", true, false).has_uncovered_symbol);
    assert!(paths_named("nothing here\n").is_empty());
}

#[test]
fn limits_have_defaults_and_caps() {
    assert_eq!(effective_limit(None, 20), 20);
    assert_eq!(effective_limit(Some(5), 20), 5);
    assert_eq!(capped_limit(Some(9_000), 25, 500), 500);
    assert!(search_fetch(20) >= 20);
}

#[test]
fn uncovered_seeds_make_a_note() {
    let seeds = [
        node("Order", "m.py", NodeKind::Model, 1, 2),
        node("Invoice", "m.py", NodeKind::Model, 4, 5),
    ];

    assert_eq!(coverage_candidates(&seeds), vec![0, 1]);

    let uncovered = explore_uncovered_seeds(&seeds, &[true, false]);

    assert_eq!(uncovered.len(), 1);

    let emitted: Vec<String> = uncovered.iter().map(|(id, _)| id.clone()).collect();
    let note = explore_coverage_note(&uncovered, &emitted);

    assert!(note.contains("Invoice"), "{note}");
    assert_eq!(explore_coverage_note(&uncovered, &[]), "", "what was not printed is not spoken of");
    assert_eq!(content_seed_nodes(&seeds).len(), 2);
    assert!(is_subsequence("ordr", "order") && !is_subsequence("rdo", "order"));
}

#[test]
fn a_change_is_measured_by_the_lines_it_touches() {
    let files = [TouchedFile {
        ranges: vec![(2, 3)],
        nodes: vec![
            node("touched", "m.py", NodeKind::Function, 1, 5),
            node("touched", "m.py", NodeKind::Function, 1, 5),
        ],
    }];
    let candidates = changed_candidates(&files);

    assert_eq!(candidates.len(), 1, "a symbol that two hunks touch is listed once");
    assert_eq!((candidates[0].node, candidates[0].changed_lines), (0, 2));

    let mut caller = node("caller", "x.py", NodeKind::Function, 1, 2);
    caller.project_id = "shop".to_string();

    let inputs = measure_change(
        &files[0].nodes[0],
        &[(EdgeKind::Calls, caller)],
        &[CallerFacts { covering: false, app: Some("x".to_string()) }],
        ChangeFacts {
            changed_lines: 2,
            churn_commits: 4,
            home_app: Some("m".to_string()),
            flow_name_top: None,
            security_keyword: None,
        },
    );

    assert_eq!((inputs.caller_count, inputs.cross_project_callers, inputs.churn_commits), (1, 1, 4));
    assert_eq!((inputs.covering_tests, inputs.cross_app_callers), (0, 1));
}

fn scored(name: &str, order: u64, text: &str) -> ScoredChange {
    ScoredChange {
        factors: RiskFactors {
            inputs: RiskInputs {
                caller_count: 3,
                changed_lines: 1,
                churn_commits: 0,
                covering_tests: 0,
                cross_app_callers: 0,
                cross_project_callers: 0,
                flow_name_top: None,
                security_keyword: None,
            },
            contributions: [0, 0, 0, 0, 0, 0, 0, 5],
            total: Fraction { order, text: text.to_string() },
        },
        line: format!("  {name}"),
    }
}

#[test]
fn changes_come_back_riskiest_first_and_paged() {
    let changes = [scored("low", 1, "0.10"), scored("high", 9, "0.90")];
    let text = changed_text(&changes, &[], 2, 25, &constellation::cursor::Page::default(), 3);

    assert!(text.find("high").unwrap() < text.find("low").unwrap(), "{text}");
    assert!(text.contains("no tests"), "{text}");

    let first = changed_text(&changes, &[], 2, 1, &constellation::cursor::Page::default(), 3);

    assert!(first.contains("cursor=1.3"), "a truncated page offers its tail: {first}");

    assert!(!has_working_tree_marker("plain line"));
}

#[test]
fn a_clean_tree_reports_no_changed_symbols() {
    let text = changed_text(&[], &[], 0, 25, &constellation::cursor::Page::default(), 0);

    assert!(text.contains("no changed symbols"), "an unedited tree says so plainly: {text}");
}

#[test]
fn neighbours_are_mutual() {
    let cache = chain();

    for (place, list) in cache.adjacency.iter().enumerate() {
        for &other in list {
            assert!(cache.adjacency[other as usize].contains(&(place as u32)));
        }
    }

    assert_eq!(cache.adjacency[1], vec![0, 2], "an edge to a lost node joins nothing");
    assert_eq!(cache.out_edges[1], vec![(2, EdgeKind::Instantiates)]);
}

#[test]
fn a_changed_symbol_is_a_candidate_once() {
    let file = || TouchedFile {
        ranges: vec![(1, u32::MAX)],
        nodes: vec![node("view", "v.py", NodeKind::View, 3, 9)],
    };
    let candidates = changed_candidates(&[file(), file()]);

    assert_eq!(candidates.len(), 1);
    assert_eq!(candidates[0].changed_lines, 7, "an open range costs a symbol its own length");
}

#[test]
fn the_instructions_name_links_only_where_there_are_some() {
    let alone = instructions(0);
    let linked = instructions(3);

    assert_ne!(alone, linked);
    assert!(linked.starts_with(&alone) || linked.contains("project"), "{linked}");
}
