use constellation::hints::{hint, HintFacts, SessionIntent, HINT_HISTORY_MAX};

fn facts() -> HintFacts {
    HintFacts { named_symbol: Some("Order".to_string()), ..HintFacts::default() }
}

#[test]
fn a_hint_never_names_a_tool_whose_precondition_is_unmet() {
    let no_flows = HintFacts { flows_available: false, ..facts() };
    let line = hint("constellation_changed", &no_flows, &SessionIntent::new()).unwrap();

    assert!(
        !line.contains("affected_flows"),
        "flows are not suggested when none are computed: {line}",
    );

    let with_flows = HintFacts { flows_available: true, ..facts() };
    let line = hint("constellation_changed", &with_flows, &SessionIntent::new()).unwrap();

    assert!(line.contains("affected_flows"), "and are suggested when they exist: {line}");
}

#[test]
fn tests_are_suggested_only_for_an_uncovered_symbol() {
    let covered = HintFacts { named_symbol: None, ..HintFacts::default() };

    assert_eq!(
        hint("constellation_explore", &covered, &SessionIntent::new()),
        None,
        "nothing applies when the response named nothing and covered everything",
    );

    let uncovered = HintFacts { has_uncovered_symbol: true, ..HintFacts::default() };
    let line = hint("constellation_explore", &uncovered, &SessionIntent::new()).unwrap();

    assert!(line.contains("next: `tests` "), "the uncovered symbol drives it: {line}");
}

#[test]
fn impact_suggests_tests_only_where_something_is_uncovered() {
    assert_eq!(hint("constellation_impact", &facts(), &SessionIntent::new()), None);

    let uncovered = HintFacts { has_uncovered_symbol: true, ..facts() };
    let line = hint("constellation_impact", &uncovered, &SessionIntent::new()).unwrap();

    assert!(line.contains("next: `tests` "), "{line}");
}

#[test]
fn no_response_gains_more_than_one_hint_line() {
    let line = hint("constellation_changed", &facts(), &SessionIntent::new()).unwrap();

    assert_eq!(line.matches("next: ").count(), 1, "exactly one suggestion: {line}");
    assert_eq!(line.lines().count(), 1, "on exactly one line: {line}");
}

#[test]
fn a_response_at_its_byte_budget_gets_no_hint() {
    let full = HintFacts { at_byte_budget: true, ..facts() };

    assert_eq!(
        hint("constellation_explore", &full, &SessionIntent::new()),
        None,
        "content beats a suggestion when space is tight",
    );
}

#[test]
fn the_hint_is_deterministic_for_a_given_response() {
    let intent = SessionIntent::new();

    assert_eq!(
        hint("constellation_node", &facts(), &intent),
        hint("constellation_node", &facts(), &intent),
        "the same inputs always produce the same hint",
    );
}

#[test]
fn a_review_sequence_prefers_a_review_follow_up() {
    let mut exploring = SessionIntent::new();
    exploring.record("constellation_overview");
    exploring.record("constellation_explore");

    let mut reviewing = SessionIntent::new();
    reviewing.record("constellation_changed");
    reviewing.record("constellation_impact");

    assert!(!exploring.is_reviewing(), "two exploration calls read as exploration");
    assert!(reviewing.is_reviewing(), "two review calls read as review");

    let facts = HintFacts { named_model: true, ..facts() };

    let exploring_line = hint("constellation_explore", &facts, &exploring).unwrap();
    let reviewing_line = hint("constellation_explore", &facts, &reviewing).unwrap();

    assert!(exploring_line.contains("next: `model` "), "exploration: {exploring_line}");
    assert!(reviewing_line.contains("next: `impact` "), "review: {reviewing_line}");
}

#[test]
fn the_intent_window_stays_bounded() {
    let mut intent = SessionIntent::new();

    for _ in 0..(HINT_HISTORY_MAX * 3) {
        intent.record("constellation_explore");
    }

    assert_eq!(intent.len(), HINT_HISTORY_MAX, "the window evicts rather than growing");
}

#[test]
fn an_unknown_tool_gets_no_hint() {
    assert_eq!(hint("constellation_status", &facts(), &SessionIntent::new()), None);
}

#[test]
fn a_fresh_session_is_empty_and_explores() {
    let intent = SessionIntent::new();

    assert!(intent.is_empty());
    assert!(!intent.is_reviewing());
}

#[test]
fn a_session_starts_with_nothing_to_judge_from() {
    let intent = SessionIntent::default();

    assert!(intent.is_empty() && !intent.is_reviewing());
    assert_eq!(intent.len(), SessionIntent::new().len());
}
