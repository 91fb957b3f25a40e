use constellation::recency::{
    commit_age, elapsed, median_weight, SessionFiles, DAY_SECS, HISTORY_WINDOW_DAYS,
    SESSION_COOLDOWN_SECS, SESSION_FILES_MAX,
};

const NOW: i64 = 1_800_000_000;

#[test]
fn the_session_cooldown_suppresses_a_second_touch() {
    let mut session = SessionFiles::new();

    assert!(session.touch("app/models.py", NOW), "the first touch counts");

    assert!(
        !session.touch("app/models.py", NOW + SESSION_COOLDOWN_SECS - 1),
        "a touch inside the cooldown is ignored",
    );

    assert!(
        session.touch("app/models.py", NOW + SESSION_COOLDOWN_SECS),
        "a touch at the cooldown boundary counts again",
    );
}

#[test]
fn the_session_memory_evicts_oldest_first_and_stays_bounded() {
    let mut session = SessionFiles::new();

    for index in 0..(SESSION_FILES_MAX + 40) {
        session.touch(&format!("app/file{index}.py"), NOW + index as i64 * 1_000);
    }

    assert_eq!(session.len(), SESSION_FILES_MAX, "the queue is capped");
    assert_eq!(session.age("app/file0.py", NOW), None, "the oldest entry was evicted");

    assert!(
        session.age(&format!("app/file{}.py", SESSION_FILES_MAX + 39), NOW + 300_000).is_some(),
        "the newest entry survives",
    );
}

#[test]
fn the_median_resists_one_very_rare_token() {
    assert_eq!(median_weight(&mut []), 0, "an empty set has no median");
    assert_eq!(median_weight(&mut [10]), 10);
    assert_eq!(median_weight(&mut [10, 20]), 15, "an even set averages the middle pair");

    assert_eq!(
        median_weight(&mut [10, 12, 14, 1_000_000]),
        13,
        "one enormous weight does not drag the median with it",
    );
}

#[test]
fn the_median_does_not_depend_on_the_order() {
    assert_eq!(median_weight(&mut [1_000_000, 12, 10, 14]), 13);
    assert_eq!(median_weight(&mut [u64::MAX, u64::MAX]), u64::MAX, "the middle pair does not overflow");
}

#[test]
fn the_median_leaves_the_weights_in_order() {
    let mut weights = [7, 3, 9, 3, 1];

    assert_eq!(median_weight(&mut weights), 3);
    assert_eq!(weights, [1, 3, 3, 7, 9]);
}

#[test]
fn a_touch_has_an_age() {
    let mut session = SessionFiles::new();

    assert!(session.is_empty());
    session.touch("app/models.py", NOW);
    assert_eq!(session.age("app/models.py", NOW), Some(0));
    assert_eq!(session.age("app/models.py", NOW + 1_200), Some(1_200));
    assert_eq!(session.age("app/views.py", NOW), None);
}

#[test]
fn a_commit_ages_out_of_the_window() {
    assert_eq!(commit_age(Some(NOW), NOW), Some(0));
    assert_eq!(commit_age(Some(NOW - 3 * DAY_SECS), NOW), Some(3 * DAY_SECS));
    assert_eq!(commit_age(Some(NOW - (HISTORY_WINDOW_DAYS + 1) * DAY_SECS), NOW), None);
    assert_eq!(commit_age(None, NOW), None);
}

#[test]
fn elapsed_time_saturates() {
    assert_eq!(elapsed(10, 4), 6);
    assert_eq!(elapsed(i64::MAX, i64::MIN), i64::MAX);
}
