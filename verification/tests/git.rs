use constellation::git::{
    add_untracked, check_revision, diff_arguments, hunks_of, overlapping_lines, parse_diff_hunks,
    parse_hunk_new_range, untracked_files, RevisionError, REVISION_CHARS_MAX, UNTRACKED_FILES_MAX,
};

#[test]
fn ordinary_revisions_are_accepted() {
    for revision in [
        "HEAD",
        "main",
        "origin/main",
        "HEAD~3",
        "HEAD^2",
        "v1.2.3",
        "3f7a91c",
        "release/2026-01",
        "@{upstream}",
        "feature/PROJ-123_add-widget",
    ] {
        assert_eq!(check_revision(revision), Ok(revision), "{revision:?} is a real revision");
    }
}

#[test]
fn a_revision_that_git_would_read_as_an_option_is_refused() {
    for option in [
        "--output=/home/user/.bashrc",
        "--output=x",
        "-p",
        "--ext-diff",
        "--no-index",
        "-G.",
    ] {
        assert_eq!(
            check_revision(option),
            Err(RevisionError::LooksLikeAnOption),
            "{option:?} must never reach git as a revision",
        );
    }
}

#[test]
fn empty_overlong_and_whitespace_revisions_are_refused() {
    assert_eq!(check_revision(""), Err(RevisionError::Empty));

    let overlong = "a".repeat(REVISION_CHARS_MAX + 1);

    assert_eq!(check_revision(&overlong), Err(RevisionError::TooLong));

    assert_eq!(check_revision("main; rm -rf /"), Err(RevisionError::HasWhitespace));
    assert_eq!(check_revision("main\nHEAD"), Err(RevisionError::HasWhitespace));
    assert_eq!(check_revision("main\0"), Err(RevisionError::HasWhitespace));
}

#[test]
fn a_refused_revision_never_reaches_git() {
    assert!(
        diff_arguments(Some("--output=/tmp/written-by-git")).is_none(),
        "the call is refused before git runs",
    );
}

#[test]
fn every_refusal_reason_explains_itself() {
    for error in [
        RevisionError::Empty,
        RevisionError::LooksLikeAnOption,
        RevisionError::TooLong,
        RevisionError::HasWhitespace,
    ] {
        assert!(!error.message().is_empty(), "{error:?} tells the agent what was wrong");
    }
}

#[test]
fn an_accepted_revision_is_the_last_argument_but_the_separator() {
    let plain = diff_arguments(None).unwrap();
    let based = diff_arguments(Some("main")).unwrap();

    assert!(!plain.contains(&"main".to_string()));
    assert!(based.contains(&"main".to_string()), "{based:?}");
    assert_eq!(based[0], "diff", "{based:?}");
}

#[test]
fn a_hunk_header_gives_its_new_range() {
    assert_eq!(parse_hunk_new_range("@@ -3,2 +5,4 @@ fn main"), Some((5, 4)));
    assert_eq!(parse_hunk_new_range("@@ -3 +7 @@"), Some((7, 1)), "no length is one line");
    assert_eq!(parse_hunk_new_range("no plus here"), None);
}

#[test]
fn a_diff_gives_the_changed_lines_of_each_file() {
    let diff = "diff --git a/app/models.py b/app/models.py\n--- a/app/models.py\n+++ b/app/models.py\n@@ -1,2 +3,4 @@\n+x\n@@ -9 +12 @@\n+y\ndiff --git a/gone.py b/gone.py\n--- a/gone.py\n+++ b//dev/null\n@@ -1 +0,0 @@\n";
    let ranges = parse_diff_hunks(diff);

    assert_eq!(hunks_of(&ranges, "app/models.py"), Some(&vec![(3, 6), (12, 12)]));
    assert_eq!(hunks_of(&ranges, "gone.py"), None);
}

#[test]
fn lines_covered_twice_are_counted_by_each_range() {
    assert_eq!(overlapping_lines(&[(1, 3), (2, 4)], 1, 10), 6);
    assert_eq!(overlapping_lines(&[(1, 3), (2, 4)], 1, 4), 4, "never more than the span has");
}

#[test]
fn only_the_lines_inside_the_span_are_counted() {
    assert_eq!(overlapping_lines(&[(1, 3), (10, 20)], 3, 12), 4);
    assert_eq!(overlapping_lines(&[(1, 3)], 4, 9), 0);
}

#[test]
fn a_hunk_header_is_read_only_whole() {
    assert_eq!(parse_hunk_new_range("@@ -3,2 +5,4 @@"), Some((5, 4)));
    assert_eq!(parse_hunk_new_range("@@ -3 +5 @@ def total(a + b):"), Some((5, 1)));
    assert_eq!(parse_hunk_new_range("@@ -0,0 +1 @@"), Some((1, 1)));

    for header in [
        "@@ -3 +5,x @@", "@@ -3 +5, @@", "@@ -3 +5,4,7 @@", "@@ -3 +x @@", "@@ -x +5 @@", "@@ -3 ++5 @@",
        "@@ -3 +5", "-3 +5 @@", "@@ 3 5 @@", "@@", "",
    ] {
        assert_eq!(parse_hunk_new_range(header), None, "{header}");
    }
}

#[test]
fn untracked_files_are_trimmed_and_bounded() {
    assert_eq!(untracked_files("a.py\n\nb.py\n"), vec!["a.py", "b.py"]);

    let many: String = (0..UNTRACKED_FILES_MAX + 5).map(|index| format!("f{index}.py\n")).collect();

    assert_eq!(untracked_files(&many).len(), UNTRACKED_FILES_MAX);
}

#[test]
fn an_untracked_file_is_changed_whole() {
    let mut ranges = parse_diff_hunks("+++ b/a.py\n@@ -1 +2,3 @@\n");

    add_untracked(&mut ranges, &["a.py".to_string(), "b.py".to_string()]);

    assert_eq!(ranges.get("a.py"), Some(&vec![(2, 4)]), "what the diff says stays");
    assert_eq!(ranges.get("b.py"), Some(&vec![(1, u32::MAX)]));
    assert_eq!(overlapping_lines(&ranges["b.py"], 5, 9), 5, "a symbol is charged its own length");
}
