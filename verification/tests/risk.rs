use constellation::risk::{
    missing_note, FactorAvailability, Fraction, RiskFactor, RiskFactors, RiskInputs,
    CHURN_SATURATION,
};

fn inputs() -> RiskInputs {
    RiskInputs {
        caller_count: 14,
        changed_lines: 3,
        churn_commits: 10,
        covering_tests: 0,
        cross_app_callers: 2,
        cross_project_callers: 1,
        flow_name_top: Some("checkout".to_string()),
        security_keyword: None,
    }
}

fn scored(strongest_first: &[RiskFactor]) -> RiskFactors {
    let mut contributions = [0_u64; 8];

    for (rank, factor) in strongest_first.iter().enumerate() {
        let place = RiskFactor::ALL.iter().position(|other| other == factor).unwrap();

        contributions[place] = (1.0 / (rank as f64 + 1.0)).to_bits();
    }

    RiskFactors {
        inputs: inputs(),
        contributions,
        total: Fraction { order: 0.5_f64.to_bits(), text: "0.50".to_string() },
    }
}

#[test]
fn the_summary_stops_at_its_cap() {
    let factors = scored(&[
        RiskFactor::FlowParticipation,
        RiskFactor::TestGap,
        RiskFactor::CallerCount,
        RiskFactor::Churn,
    ]);
    let summary = factors.summary(3);

    assert!(summary.contains("checkout"), "the top flow is named: {summary}");
    assert!(summary.contains("no tests"), "the coverage gap is named: {summary}");
    assert_eq!(summary.matches(", ").count(), 2, "three reasons, two separators: {summary}");
    assert_eq!(summary, "in \"checkout\" flow, no tests, 14 callers");
}

#[test]
fn a_factor_with_nothing_to_say_is_passed_over() {
    let factors = scored(&[RiskFactor::Security, RiskFactor::DiffSize]);

    assert_eq!(factors.describe(RiskFactor::Security), None);
    assert_eq!(factors.summary(1), "3 lines changed");
    assert_eq!(scored(&[]).summary(3), "");
}

#[test]
fn factors_rank_by_what_they_add() {
    let factors = scored(&[RiskFactor::TestGap, RiskFactor::CallerCount]);

    assert_eq!(factors.ranked_contributions(), vec![RiskFactor::TestGap, RiskFactor::CallerCount]);

    let tied = RiskFactors {
        inputs: inputs(),
        contributions: [7, 0, 7, 0, 0, 0, 0, 9],
        total: Fraction { order: 0, text: "0.00".to_string() },
    };

    assert_eq!(
        tied.ranked_contributions(),
        vec![RiskFactor::ALL[7], RiskFactor::ALL[0], RiskFactor::ALL[2]],
        "a tie keeps the fixed order, and what added nothing is dropped",
    );
}

#[test]
fn measurements_stop_counting_at_their_bound() {
    let inputs = inputs();

    assert_eq!(inputs.measure(RiskFactor::CallerCount), Some((14, 20)));
    assert_eq!(inputs.measure(RiskFactor::Churn), Some((10, 10)));
    assert_eq!(inputs.measure(RiskFactor::CrossProjectCallers), Some((1, 2)));
    assert_eq!(inputs.measure(RiskFactor::Security), Some((0, 1)));
    assert_eq!(inputs.measure(RiskFactor::TestGap), Some((0, 5)));
    assert_eq!(inputs.measure(RiskFactor::FlowParticipation), None);
}

#[test]
fn every_factor_has_its_own_label() {
    for (position, factor) in RiskFactor::ALL.iter().enumerate() {
        assert!(!RiskFactor::ALL[..position].iter().any(|other| other.as_str() == factor.as_str()));
    }
}

#[test]
fn a_missing_pass_is_named() {
    let all = FactorAvailability { churn: true, flow_participation: true };
    let none = FactorAvailability { churn: false, flow_participation: false };

    assert_eq!(missing_note("shop", all), None);
    assert!(missing_note("shop", none).unwrap().contains("shop"));
}

fn quiet() -> RiskInputs {
    RiskInputs {
        caller_count: 0,
        changed_lines: 0,
        churn_commits: 0,
        covering_tests: 0,
        cross_app_callers: 0,
        cross_project_callers: 0,
        flow_name_top: None,
        security_keyword: None,
    }
}

/// Blends measured inputs under one weight per factor, in the fixed order of the factors.
fn blended(inputs: RiskInputs, flow_criticality_total: f64, weights: [f64; 8]) -> RiskFactors {
    let mut contributions = [0_u64; 8];
    let mut total = 0.0;

    for (place, factor) in RiskFactor::ALL.into_iter().enumerate() {
        let share = match inputs.measure(factor) {
            Some((count, bound)) => f64::from(count) / f64::from(bound),
            None => (flow_criticality_total / 2.0).min(1.0),
        };
        let sub_score = if factor == RiskFactor::TestGap { 1.0 - share } else { share };
        let contribution = weights[place] * sub_score;

        total += contribution;
        contributions[place] = contribution.to_bits();
    }

    RiskFactors {
        inputs,
        contributions,
        total: Fraction { order: total.to_bits(), text: format!("{total:.2}") },
    }
}

const RISK_WEIGHTS: [f64; 8] = [0.05, 0.10, 0.07, 0.08, 0.05, 0.25, 0.15, 0.25];

#[test]
fn the_summary_names_the_strongest_reasons() {
    let scored = blended(
        RiskInputs {
            caller_count: 14,
            churn_commits: CHURN_SATURATION,
            flow_name_top: Some("checkout".to_string()),
            ..quiet()
        },
        1.8,
        RISK_WEIGHTS,
    );

    let summary = scored.summary(3);

    assert!(summary.contains("checkout"), "the top flow is named: {summary}");
    assert!(summary.contains("no tests"), "the coverage gap is named: {summary}");
    assert_eq!(summary.matches(", ").count(), 2, "three reasons, two separators: {summary}");
}

#[test]
fn the_summary_is_deterministic_for_identical_inputs() {
    let build = || blended(RiskInputs { caller_count: 3, ..quiet() }, 0.0, RISK_WEIGHTS);

    assert_eq!(build().summary(3), build().summary(3), "identical inputs render identically");
}

#[test]
fn dropping_the_churn_factor_leaves_it_out_of_the_ranking() {
    let kept: f64 = 1.0 - 0.10 - 0.25;
    let mut weights = RISK_WEIGHTS.map(|weight| weight / kept);

    weights[1] = 0.0;
    weights[5] = 0.0;

    let scored = blended(RiskInputs { churn_commits: 40, ..quiet() }, 0.0, weights);

    assert!(
        scored.ranked_contributions().iter().all(|factor| *factor != RiskFactor::Churn),
        "a zero-weight factor never appears in the ranking",
    );
}
