use constellation::text::{head_within, truncate_at_boundary, ELLIPSIS};
use std::borrow::Cow;

#[test]
fn text_within_budget_is_borrowed_whole() {
    let fitted = truncate_at_boundary("models.py", 64);

    assert!(matches!(fitted, Cow::Borrowed(_)), "a fitting value is not copied");
    assert_eq!(fitted, "models.py", "and comes back unchanged");
}

#[test]
fn text_exactly_at_budget_is_left_alone() {
    let fitted = truncate_at_boundary("abcd", 4);

    assert!(matches!(fitted, Cow::Borrowed(_)), "the budget is inclusive");
    assert_eq!(fitted, "abcd");
}

#[test]
fn overlong_text_is_cut_and_marked_within_the_budget() {
    let fitted = truncate_at_boundary("abcdefgh", 6);

    assert_eq!(fitted, format!("abc{ELLIPSIS}"), "the cut is marked, never silent");
    assert!(fitted.len() <= 6, "and the marker is charged against the budget");
}

#[test]
fn a_cut_never_splits_a_character_and_never_overruns() {
    let text = "ααααα";

    for budget in 0..=text.len() {
        let fitted = truncate_at_boundary(text, budget);
        let body = fitted.strip_suffix(ELLIPSIS).unwrap_or(&fitted);

        assert!(fitted.len() <= budget, "budget {budget} respected by {fitted:?}");
        assert!(text.starts_with(body), "the kept part is a prefix of the original");
    }
}

#[test]
fn a_budget_too_small_for_the_marker_yields_an_empty_string() {
    assert_eq!(truncate_at_boundary("abc", 0), "", "never a value over budget");
    assert_eq!(truncate_at_boundary("abc", 1), "", "the marker alone is three bytes");
}

#[test]
fn a_head_ends_before_the_character_that_overruns() {
    assert_eq!(head_within("ααα", 3), "α");
    assert_eq!(head_within("abc", 9), "abc");
    assert_eq!(head_within("abc", 0), "");
}
