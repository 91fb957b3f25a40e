use constellation::graph::NodeKind;
use constellation::risk::Fraction;
use constellation::winnow::{
    fraction_matches, glob_matches, number_matches, parse, parse_date,
    string_matches, Axis, Op, Rank, RawCriterion, Value, WinnowError, GLOB_TEXT_CHARS_MAX,
    PATTERN_CHARS_MAX, WINNOW_CRITERIA_MAX,
};

fn raw<'a>(axis: &'a str, op: &'a str, value: &'a str) -> RawCriterion<'a> {
    RawCriterion { axis, op, value, window_days: None, fraction: None }
}

#[test]
fn an_unknown_axis_names_every_valid_axis() {
    let error = parse(&[raw("complexity", "gt", "10")]).unwrap_err();

    assert_eq!(error, WinnowError::UnknownAxis("complexity".to_string()));

    let message = error.message();

    assert!(message.contains("Valid axes"), "the message enumerates them: {message}");
    assert!(message.contains("lines"), "including the honest proxy: {message}");
}

#[test]
fn an_unknown_op_names_every_valid_op() {
    let error = parse(&[raw("kind", "startswith", "model")]).unwrap_err();

    assert_eq!(error, WinnowError::UnknownOp("startswith".to_string()));
    assert!(error.message().contains("contains"), "{}", error.message());
}

#[test]
fn an_op_an_axis_rejects_names_the_ops_it_accepts() {
    let error = parse(&[raw("kind", "contains", "model")]).unwrap_err();

    assert_eq!(error, WinnowError::UnsupportedOp { axis: Axis::Kind, op: Op::Contains });

    let message = error.message();

    assert!(message.contains("It accepts"), "{message}");
    assert!(message.contains("eq") && message.contains("in"), "{message}");
}

#[test]
fn an_unusable_value_explains_the_shape_expected() {
    let error = parse(&[raw("callers", "gt", "many")]).unwrap_err();

    assert!(error.message().contains("integer"), "{}", error.message());

    let seven = Fraction { order: 7.0_f64.to_bits(), text: "7".to_string() };
    let risk = RawCriterion { fraction: Some(&seven), ..raw("risk", "gte", "7") };
    let error = parse(&[risk]).unwrap_err();

    assert!(error.message().contains("0.0 and 1.0"), "a risk is a fraction: {}", error.message());

    let error = parse(&[raw("kind", "eq", "widget")]).unwrap_err();

    assert!(error.message().contains("node kind"), "{}", error.message());
}

#[test]
fn too_many_criteria_is_rejected_rather_than_truncated() {
    let criteria: Vec<RawCriterion<'_>> =
        (0..=WINNOW_CRITERIA_MAX).map(|_| raw("kind", "eq", "model")).collect();

    let error = parse(&criteria).unwrap_err();

    assert!(matches!(error, WinnowError::TooManyCriteria(_)), "{}", error.message());
    assert!(error.message().contains("Split the query"), "{}", error.message());
}

#[test]
fn criteria_are_reordered_cheapest_first_regardless_of_input_order() {
    let parsed = parse(&[
        raw("calls", "contains", "save"),
        raw("tested", "eq", "false"),
        raw("kind", "eq", "model"),
    ])
    .unwrap();

    let order: Vec<&str> = parsed.iter().map(|criterion| criterion.axis.as_str()).collect();

    assert_eq!(
        order,
        vec!["kind", "tested", "calls"],
        "an indexed column narrows before a derived scalar, which narrows before an edge join",
    );
}

#[test]
fn a_list_value_parses_into_its_typed_set() {
    let parsed = parse(&[raw("kind", "in", "model, view")]).unwrap();

    assert_eq!(parsed[0].value, Value::Kinds(vec![NodeKind::Model, NodeKind::View]));
}

#[test]
fn glob_matching_handles_stars_questions_and_anchors() {
    assert!(glob_matches("*_view", "detail_view"));
    assert!(glob_matches("detail_*", "detail_view"));
    assert!(glob_matches("*models.py", "app/orders/models.py"));
    assert!(glob_matches("app/*/models.py", "app/orders/models.py"));
    assert!(glob_matches("?rder", "order"));
    assert!(glob_matches("*", "anything"));

    assert!(!glob_matches("*_view", "view_detail"));
    assert!(!glob_matches("?rder", "reorder"));
    assert!(!glob_matches("detail", "detail_view"), "a glob is anchored at both ends");
}

#[test]
fn glob_backtracking_terminates_on_an_adversarial_pattern() {
    let pattern = "*a*a*a*a*a*a*b";
    let text = "a".repeat(64);

    assert!(!glob_matches(pattern, &text), "it terminates rather than running away");
}

#[test]
fn a_maximal_pattern_against_a_long_path_answers_rather_than_panicking() {
    let pattern = "*a".repeat(PATTERN_CHARS_MAX / 2);
    let text = format!("{}b", "a".repeat(GLOB_TEXT_CHARS_MAX - 1));

    assert_eq!(pattern.chars().count(), PATTERN_CHARS_MAX, "the pattern sits on the cap");
    assert!(!glob_matches(&pattern, &text), "an unmatchable worst case answers no");
}

#[test]
fn a_haystack_past_the_cap_is_no_match_rather_than_a_walk() {
    let text = "a".repeat(GLOB_TEXT_CHARS_MAX + 1);

    assert!(!glob_matches("*", &text), "past the cap nothing matches, not even a bare star");
    assert!(glob_matches("*", &"a".repeat(GLOB_TEXT_CHARS_MAX)), "at the cap it still matches");
}

#[test]
fn string_ops_do_what_their_names_say() {
    let needles = vec!["order".to_string()];

    assert!(string_matches(Op::Contains, &needles, "CustomerOrder"));
    assert!(!string_matches(Op::Equal, &needles, "CustomerOrder"));
    assert!(string_matches(Op::Equal, &needles, "Order"), "equality is case-insensitive");
    assert!(string_matches(Op::Matches, &["*order".to_string()], "CustomerOrder"));
}

#[test]
fn numeric_and_fractional_ops_compare_the_right_way_round() {
    assert!(number_matches(Op::GreaterThan, 5, 6), "actual > threshold");
    assert!(!number_matches(Op::GreaterThan, 5, 5));
    assert!(number_matches(Op::LessOrEqual, 5, 5));
    assert!(number_matches(Op::Equal, 5, 5));

    assert!(fraction_matches(Op::GreaterOrEqual, 0.7_f64.to_bits(), 0.7_f64.to_bits()));
    assert!(!fraction_matches(Op::GreaterThan, 0.7_f64.to_bits(), 0.7_f64.to_bits()));
}

#[test]
fn a_date_parses_to_midnight_utc() {
    assert_eq!(parse_date("1970-01-01"), Some(0));
    assert_eq!(parse_date("1970-01-02"), Some(86_400));
    assert_eq!(parse_date("not-a-date"), None);
    assert_eq!(parse_date("2024-13-01"), None);
}

#[test]
fn every_listed_axis_parses_back_from_its_own_label() {
    for axis in Axis::ALL {
        assert_eq!(
            Axis::from_str_label(axis.as_str()),
            Some(axis),
            "{axis:?} round trips through the label the schema advertises",
        );
    }

    assert_eq!(Axis::from_str_label("complexity"), None, "an unknown axis is rejected");
}

#[test]
fn every_listed_op_parses_back_from_its_own_label() {
    for op in Op::ALL {
        assert_eq!(
            Op::from_str_label(op.as_str()),
            Some(op),
            "{op:?} round trips through the label it renders as",
        );
    }

    assert_eq!(Op::from_str_label("~="), None, "an unknown op is rejected");
}

#[test]
fn no_axis_or_op_label_is_declared_twice() {
    for (position, axis) in Axis::ALL.iter().enumerate() {
        let earlier = &Axis::ALL[..position];

        assert!(
            !earlier.iter().any(|other| other.as_str() == axis.as_str()),
            "{axis:?} shares a label with an axis declared before it",
        );
    }

    for (position, op) in Op::ALL.iter().enumerate() {
        let earlier = &Op::ALL[..position];

        assert!(
            !earlier.iter().any(|other| other.as_str() == op.as_str()),
            "{op:?} shares a label with an op declared before it",
        );
    }
}

#[test]
fn every_axis_accepts_at_least_one_op() {
    for axis in Axis::ALL {
        assert!(
            !axis.allowed_ops().is_empty(),
            "{axis:?} would be unusable: the schema lists it and every op is rejected",
        );
    }
}

#[test]
fn every_rank_parses_back_from_its_own_label() {
    for rank in Rank::ALL {
        assert_eq!(Rank::from_str_label(rank.as_str()), Some(rank));
        assert!(Rank::valid_labels().contains(rank.as_str()));
    }

    assert_eq!(Rank::from_str_label("beauty"), None);
}

#[test]
fn a_pattern_past_the_cap_is_refused() {
    let long = "a".repeat(PATTERN_CHARS_MAX + 1);
    let error = parse(&[raw("name", "contains", &long)]).unwrap_err();

    assert_eq!(error, WinnowError::PatternTooLong(PATTERN_CHARS_MAX + 1));
    assert!(error.message().contains(&PATTERN_CHARS_MAX.to_string()), "{}", error.message());
}

#[test]
fn a_fraction_is_carried_with_its_text() {
    let fraction = Fraction { order: 0.5_f64.to_bits(), text: "0.5".to_string() };
    let parsed = parse(&[RawCriterion {
        axis: "risk",
        op: "gte",
        value: "0.5",
        window_days: None,
        fraction: Some(&fraction),
    }])
    .unwrap();

    assert_eq!(parsed[0].value, Value::Fraction(fraction));
    assert!(parsed[0].describe().contains("0.5"), "{}", parsed[0].describe());
}

#[test]
fn a_churn_window_is_at_least_a_day() {
    let windowed = |window_days| RawCriterion { axis: "churn", op: "gte", value: "3", window_days, fraction: None };

    assert_eq!(parse(&[windowed(None)]).unwrap()[0].window_days, 90);
    assert_eq!(parse(&[windowed(Some(0))]).unwrap()[0].window_days, 1);
    assert_eq!(parse(&[windowed(Some(30))]).unwrap()[0].window_days, 30);
}

#[test]
fn a_value_that_is_no_date_is_unusable() {
    assert_eq!(parse_date("2024-02-29"), Some(1_709_164_800));

    for value in ["9223372036854775807-01-01", "2023-02-29", "2023-6-5", "+2023-06-15", "2023-04-31"] {
        assert_eq!(parse_date(value), None, "{value}");
        assert_eq!(
            parse(&[raw("changed_since", "gte", value)]).unwrap_err(),
            WinnowError::UnusableValue { axis: Axis::ChangedSince, value: value.to_string() },
        );
    }
}

#[test]
fn a_list_of_nothing_is_unusable() {
    for (axis, label, op) in [
        (Axis::Name, "name", "contains"),
        (Axis::Kind, "kind", "in"),
        (Axis::Language, "language", "in"),
        (Axis::InFlow, "in_flow", "eq"),
    ] {
        assert_eq!(
            parse(&[raw(label, op, " , ")]).unwrap_err(),
            WinnowError::UnusableValue { axis, value: " , ".to_string() },
            "{label}",
        );
    }
}

#[test]
fn a_risk_outside_zero_and_one_is_unusable() {
    for value in [-0.5_f64, 1.000_1, f64::INFINITY, f64::NAN] {
        let read = Fraction { order: value.to_bits(), text: format!("{value}") };
        let text = format!("{value}");
        let risk = RawCriterion { fraction: Some(&read), ..raw("risk", "gte", &text) };

        assert!(parse(&[risk]).is_err(), "{value}");
    }

    let one = Fraction { order: 1.0_f64.to_bits(), text: "1".to_string() };

    assert!(parse(&[RawCriterion { fraction: Some(&one), ..raw("risk", "gte", "1") }]).is_ok());
}

#[test]
fn a_star_in_the_text_is_matched_by_a_star() {
    assert!(glob_matches("a*c", "a*bc"));
    assert!(glob_matches("a**c", "ac"));
}
