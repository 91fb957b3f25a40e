use constellation::explore::{
    document_frequencies, emit_file_source, focused_positions, full_files, group_by_file, rank_files,
    render_ranked, slice_lines, token_median, Page, RenderRequest,
};
use constellation::graph::{EdgeKind, Language, Node, NodeKind, Span};
use constellation::keys::{KeyIndex, PlaceIndex, TextIndex};
use constellation::limits::EXPLORE_LINES_MAX;
use constellation::numbers::{decimal_i64, decimal_u128, pad_zeros, parse_i64, parse_u64};
use constellation::order::{arrange, sort_order, Part};
use constellation::rank::{
    cross_project_rank, edge_rank, exact_name_hits, kind_rank, path_token_coverage, query_names,
    query_tokens, weight_of, weighted_token_score,
};
use constellation::render::{
    compact, dedup_related, file_path_in_line, first_named_symbol, found_nothing, node_line,
    summarize_kinds, tally_labels, with_hint,
};

fn node(name: &str, file: &str, kind: NodeKind, line: u32) -> Node {
    Node {
        id: format!("blog::{file}::{name}"),
        project_id: "blog".to_string(),
        kind,
        language: Language::Python,
        name: name.to_string(),
        qualified_name: format!("{file}::{name}"),
        file_path: file.to_string(),
        span: Span { start_line: line, end_line: line + 1 },
        signature: None,
        docstring: None,
        decorators: Vec::new(),
        in_test_file: false,
        in_generated_file: false,
        marker: String::new(),
    }
}

fn shop() -> Vec<Node> {
    vec![
        node("Order", "orders/models.py", NodeKind::Model, 1),
        node("checkout_view", "orders/views.py", NodeKind::View, 3),
        node("OrderLine", "orders/models.py", NodeKind::Model, 5),
    ]
}

#[test]
fn ranked_nodes_are_grouped_by_file_in_walk_order() {
    let groups = group_by_file(&shop(), &[1, 0, 2]);

    assert_eq!(groups.len(), 2);
    assert_eq!((groups[0].positions.as_slice(), groups[0].walk_rank), ([1].as_slice(), 0));
    assert_eq!(groups[1].positions, vec![0, 2]);
}

#[test]
fn a_file_that_names_the_query_comes_first() {
    let nodes = shop();
    let groups = group_by_file(&nodes, &[1, 0, 2]);
    let tokens = query_tokens("Order");
    let listing = rank_files(&nodes, &groups, &tokens, &[0, 0], 8);

    assert_eq!(listing.order[0], 1, "the models file names the query exactly");

    let capped = rank_files(&nodes, &groups, &tokens, &[0, 0], 1);

    assert_eq!(capped.order, vec![1]);
    assert_eq!(document_frequencies(&nodes, &groups, &tokens).len(), tokens.len());
    assert!(token_median(&nodes, &groups, &tokens) > 0);
}

#[test]
fn source_is_printed_once_in_file_order() {
    let nodes = shop();
    let groups = group_by_file(&nodes, &[1, 0, 2]);
    let tokens = query_tokens("order");
    let listing = rank_files(&nodes, &groups, &tokens, &[0, 0], 8);
    let sources: Vec<Option<String>> = listing
        .order
        .iter()
        .map(|_| Some("class Order:\n    pass\n\n\nclass OrderLine:\n    pass\n".to_string()))
        .collect();
    let (text, written) = render_ranked(
        &nodes,
        &groups,
        &listing,
        &tokens,
        &sources,
        &RenderRequest { budget: 40_000, outline: false },
    );

    assert!(text.contains("class Order:"), "{text}");
    assert!(!written.is_empty());

    let (outline, _) = render_ranked(
        &nodes,
        &groups,
        &listing,
        &tokens,
        &[],
        &RenderRequest { budget: 40_000, outline: true },
    );

    assert!(!outline.contains("class Order:"), "an outline carries no source: {outline}");
    assert_eq!(full_files(true, 3), 0);
}

#[test]
fn a_slice_of_lines_keeps_to_its_budget() {
    assert_eq!(slice_lines("a\nb\nc\n", 2, 3, 100), "2\tb\n3\tc");
    assert_eq!(slice_lines("aaaa\nbbbb\n", 1, 2, 6), "1\ta\u{2026}");
}

#[test]
fn focus_keeps_what_the_query_names() {
    let nodes = shop();

    assert_eq!(
        focused_positions(&nodes, &[0, 1, 2], &query_tokens("checkout_view")),
        vec![1, 0, 2],
        "the named symbol first, then a couple of neighbours",
    );
    assert_eq!(focused_positions(&nodes, &[0, 1], &query_tokens("zzz")), vec![0, 1]);
}

#[test]
fn tokens_and_weights_score_a_file() {
    let nodes = shop();
    let tokens = query_tokens("order checkout_view");

    assert!(tokens.contains(&"order".to_string()), "{tokens:?}");
    assert!(query_names("where is Order built", "Order"));
    assert!(!query_names("where is Orders built", "Order"));
    assert_eq!(exact_name_hits(&nodes, &[0], &query_tokens("Order")), 1);
    assert!(path_token_coverage(&nodes, &[0], &query_tokens("order_lines")) <= 1);
    assert!(weight_of(100, 1) > weight_of(100, 50), "a rarer token weighs more");
    assert!(weighted_token_score(&nodes, &[0], &query_tokens("order"), &[1], 2) > 0);
    assert!(kind_rank(NodeKind::Model) <= kind_rank(NodeKind::Variable));
    assert!(edge_rank(EdgeKind::Calls) <= edge_rank(EdgeKind::Contains));
    assert_ne!(cross_project_rank(&nodes[0], "blog"), cross_project_rank(&nodes[0], "shop"));
}

#[test]
fn rows_are_written_and_read_back() {
    let order = node("Order", "orders/models.py", NodeKind::Model, 7);
    let line = node_line(&order);

    assert!(line.contains("Order") && line.contains("orders/models.py:7"), "{line}");
    assert_eq!(first_named_symbol(&format!("# heading\n  {line}\n")).as_deref(), Some("Order"));
    assert_eq!(file_path_in_line(&line).as_deref(), Some("orders/models.py"));
    assert_eq!(file_path_in_line(&format!("  [calls] {line}")).as_deref(), Some("orders/models.py"));
    assert_eq!(file_path_in_line(&format!("L2 [calls] {line}")).as_deref(), Some("orders/models.py"));
    assert_eq!(file_path_in_line(&format!("{line}  def f(a:1)")).as_deref(), Some("orders/models.py"));
    assert_eq!(file_path_in_line("sum(a:1)"), None, "a line of source is no symbol line");
    assert_eq!(file_path_in_line("      app/views.py:3  total(a:1)"), None);
    assert_eq!(first_named_symbol(&format!("[own] title\n  [calls ×2] {line}\n")).as_deref(), Some("Order"));
    assert_eq!(compact("a\n   b"), "  a b");
    assert!(found_nothing("no symbols matching \"x\""));
    assert!(!found_nothing(&line));
    assert_eq!(with_hint("text\n".to_string(), ""), "text\n");
    assert!(with_hint("text\n".to_string(), "next: `impact` x\n").ends_with("next: `impact` x\n"));
}

#[test]
fn repeated_relations_become_one_row_with_a_count() {
    let related: Vec<(EdgeKind, Node)> = vec![
        (EdgeKind::Calls, node("a", "a.py", NodeKind::Function, 1)),
        (EdgeKind::Calls, node("a", "a.py", NodeKind::Function, 1)),
        (EdgeKind::Calls, node("b", "b.py", NodeKind::Function, 1)),
    ];
    let rows = dedup_related(&related);

    assert_eq!(rows.len(), 2);
    assert_eq!(rows[0].1, 2);
    assert_eq!(summarize_kinds(&shop()), tally_labels(&["model", "view", "model"]));
}

#[test]
fn orders_are_by_key_and_ties_keep_their_place() {
    let keys = vec![
        vec![Part::Number(2), Part::Text("a".to_string())],
        vec![Part::Number(1), Part::Text("b".to_string())],
        vec![Part::Number(1), Part::Text("a".to_string())],
        vec![Part::Number(1), Part::Text("a".to_string())],
    ];

    assert_eq!(sort_order(&keys), vec![2, 3, 1, 0]);
    assert_eq!(arrange(&[40, 30, 20, 10], &keys), vec![20, 10, 30, 40]);
}

#[test]
fn indexes_find_what_was_added() {
    let mut index = KeyIndex::new();

    index.add("a");
    index.add("b");
    assert_eq!((index.len(), index.find("b"), index.find("c"), index.key(0)), (2, Some(1), None, "a"));

    let mut places = PlaceIndex::new();

    places.push("a");
    places.push("b");
    places.push("a");
    assert_eq!((places.get("a"), places.get("b"), places.get("c")), (Some(2), Some(1), None));

    let pairs = [("k".to_string(), "v".to_string()), ("k".to_string(), "w".to_string())];
    let texts = TextIndex::new(&pairs);

    assert_eq!((texts.get("k"), texts.get("z")), (Some("w"), None));
}

#[test]
fn numbers_are_written_and_read() {
    assert_eq!(decimal_u128(u128::MAX), u128::MAX.to_string());
    assert_eq!(decimal_i64(i64::MIN), i64::MIN.to_string());
    assert_eq!(pad_zeros("7".to_string(), 3), "007");
    assert_eq!(parse_u64("+12"), Some(12));
    assert_eq!(parse_u64("-12"), None);
    assert_eq!(parse_i64("-9223372036854775808"), Some(i64::MIN));
    assert_eq!(parse_i64("9223372036854775808"), None);
    assert_eq!(parse_i64(""), None);
}

#[test]
fn recency_never_outranks_a_name() {
    let nodes = shop();
    let groups = group_by_file(&nodes, &[1, 0, 2]);
    let tokens = query_tokens("Order");
    let listing = rank_files(&nodes, &groups, &tokens, &[u64::MAX, 0], 8);

    assert_eq!(listing.order, vec![1, 0], "the bonus of the other file does not lift it");
}

#[test]
fn a_nested_symbol_is_not_printed_again() {
    let mut nodes = shop();
    nodes[0].span.end_line = 6;
    let groups = group_by_file(&nodes, &[0, 2]);
    let tokens = query_tokens("shop");
    let listing = rank_files(&nodes, &groups, &tokens, &[0], 8);
    let source = Some("1\n2\n3\n4\n5\n6\n".to_string());
    let (text, written) = render_ranked(
        &nodes,
        &groups,
        &listing,
        &tokens,
        &[source],
        &RenderRequest { budget: 40_000, outline: false },
    );

    assert_eq!(written, vec![0], "{text}");
    assert_eq!(text.matches("5\t5").count(), 1, "{text}");
}

#[test]
fn a_token_has_three_characters_and_is_counted_once_per_file() {
    assert_eq!(query_tokens("é1 ab order_line the"), vec!["order_line"]);

    let nodes = shop();
    let groups = group_by_file(&nodes, &[1, 0, 2]);

    assert_eq!(document_frequencies(&nodes, &groups, &query_tokens("order order view")), vec![1, 1, 1]);
}

#[test]
fn lines_that_two_symbols_share_are_printed_once() {
    let mut nodes = shop();
    nodes[0].span.end_line = 4;
    nodes[2].span.start_line = 3;
    nodes[2].span.end_line = 6;
    let groups = group_by_file(&nodes, &[0, 2]);
    let tokens = query_tokens("shop");
    let listing = rank_files(&nodes, &groups, &tokens, &[0], 8);
    let source = Some("1\n2\n3\n4\n5\n6\n".to_string());
    let (text, written) = render_ranked(
        &nodes,
        &groups,
        &listing,
        &tokens,
        &[source],
        &RenderRequest { budget: 40_000, outline: false },
    );

    assert_eq!(written, vec![0, 2], "{text}");

    for line in ["1\t1", "2\t2", "3\t3", "4\t4", "5\t5", "6\t6"] {
        assert_eq!(text.matches(line).count(), 1, "{text}");
    }
}

#[test]
fn an_answer_has_no_more_source_lines_than_its_cap() {
    let mut nodes = shop();
    nodes[0].span.end_line = 6;
    let mut page = Page {
        text: String::new(),
        emitted: Vec::new(),
        budget: 40_000,
        lines: EXPLORE_LINES_MAX - 2,
    };

    assert!(emit_file_source(&mut page, "1\n2\n3\n4\n5\n6\n", &nodes, &[0]));
    assert_eq!(page.lines, EXPLORE_LINES_MAX);
    assert!(page.text.contains("1\t1\n2\t2\n… (4 more lines)"), "{}", page.text);
    assert!(!emit_file_source(&mut page, "1\n2\n3\n4\n5\n6\n", &nodes, &[2]), "no line is left");
}

#[test]
fn the_location_is_the_first_bracket_that_reads_as_one() {
    let path = |line: &str| file_path_in_line(line);

    assert_eq!(
        path("[p] route page @ urls.py::GET (list) (urls.py:3)").as_deref(),
        Some("urls.py"),
        "a target may hold brackets of its own",
    );
    assert_eq!(path("[p] route page @ urls.py::GET (list (urls.py:3)").as_deref(), Some("urls.py"));
    assert_eq!(path("[p] function f @ m.py::f (m.py:3)  (a: int) (b:1)").as_deref(), Some("m.py"));
    assert_eq!(path("[p] function f @ m.py::f (m.py)"), None, "no line is given");
    assert_eq!(path("[p] function f @ m.py::f (:3)"), None, "no path is given");
    assert_eq!(path("[p function f @ m.py::f (m.py:3)"), None, "the tag is not closed");
}

#[test]
fn only_the_tags_a_row_begins_with_are_passed_over() {
    let name = |line: &str| first_named_symbol(line);

    assert_eq!(
        name("[p] selector a[href] span @ s.css::a[href] span (s.css:1)").as_deref(),
        Some("a[href]"),
    );
    assert_eq!(
        name("  [styles] [p] selector a[href] b c @ s.css::x (s.css:1)").as_deref(),
        Some("a[href]"),
    );
}

#[test]
fn a_line_reads_back_whatever_its_symbol_is_called() {
    for name in ["Order", "a[href]", "GET (list)", "x.y", "@media"] {
        let symbol = node(name, "app/my file.py", NodeKind::Selector, 12);
        let line = node_line(&symbol);

        assert_eq!(file_path_in_line(&line).as_deref(), Some("app/my file.py"), "{line}");
        assert_eq!(
            first_named_symbol(&line).as_deref(),
            name.split(' ').next(),
            "the name, or the first word of it: {line}",
        );
    }
}
