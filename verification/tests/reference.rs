use pr_title_issues::error::Error;
use pr_title_issues::reference::pr_num_from_gh_ref;

#[test]
fn test_pr_num_from_gh_ref() {
    assert_eq!(pr_num_from_gh_ref("refs/pull/16901/merge"), Ok(16901));
}

#[test]
fn reference_without_digits_is_malformed() {
    assert_eq!(pr_num_from_gh_ref("refs/heads/main"), Err(Error::MalformedReference));
    assert_eq!(pr_num_from_gh_ref(""), Err(Error::MalformedReference));
}

#[test]
fn reference_uses_the_leftmost_run_only() {
    assert_eq!(pr_num_from_gh_ref("a1/b22"), Ok(1));
    assert_eq!(pr_num_from_gh_ref("12/34"), Ok(12));
    assert_eq!(pr_num_from_gh_ref("x7"), Ok(7));
}

#[test]
fn reference_run_is_taken_whole() {
    assert_eq!(pr_num_from_gh_ref("refs/pull/0042/merge"), Ok(42));
    assert_eq!(pr_num_from_gh_ref("16901"), Ok(16901));
    assert_eq!(pr_num_from_gh_ref("pull/0"), Ok(0));
}

#[test]
fn reference_holds_the_whole_range_of_64_bits() {
    assert_eq!(
        pr_num_from_gh_ref("refs/pull/18446744073709551615/merge"),
        Ok(18446744073709551615)
    );
    assert_eq!(
        pr_num_from_gh_ref("refs/pull/000000000000000000000000000009/merge"),
        Ok(9)
    );
}

#[test]
fn reference_beyond_64_bits_overflows() {
    assert_eq!(
        pr_num_from_gh_ref("refs/pull/18446744073709551616/merge"),
        Err(Error::IdentifierOverflow)
    );
    assert_eq!(
        pr_num_from_gh_ref("99999999999999999999999/1"),
        Err(Error::IdentifierOverflow)
    );
}

#[test]
fn reference_counts_ascii_digits_only() {
    assert_eq!(pr_num_from_gh_ref("\u{663}\u{664}/5"), Ok(5));
    assert_eq!(pr_num_from_gh_ref("\u{ff11}\u{ff12}"), Err(Error::MalformedReference));
}

#[test]
fn error_messages_name_the_fault() {
    assert_eq!(
        Error::MalformedReference.message(),
        "the reference holds no pull request number"
    );
    assert_eq!(
        Error::IdentifierOverflow.message(),
        "the pull request number in the reference is too large"
    );
    assert_eq!(
        Error::UnparseableCapture.message(),
        "an issue number in the description is too large"
    );
}

#[test]
fn main_functions_stand_at_the_root_too() {
    assert_eq!(pr_title_issues::pr_num_from_gh_ref("refs/pull/3/merge"), Ok(3));
    assert_eq!(pr_title_issues::pr_issues_from_body("fix #3"), Ok(vec![3]));
    assert_eq!(pr_title_issues::compose_title("t", &[3]), "t [#3]");
    assert_eq!(
        pr_title_issues::retitle(Some("t"), Some("fix #3")),
        Ok(String::from("t [#3]"))
    );
}
