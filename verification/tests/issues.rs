use pr_title_issues::error::Error;
use pr_title_issues::issues::pr_issues_from_body;
use pr_title_issues::listing::insert_ascending;

#[test]
fn test_pr_issues_from_body_empty() {
    assert_eq!(pr_issues_from_body(&""), Ok(Vec::<u64>::new()));
}

#[test]
fn test_pr_issues_from_body_no_issue() {
    assert_eq!(
        pr_issues_from_body(&"this has no issue number identifier"),
        Ok(Vec::<u64>::new())
    );
}

#[test]
fn test_pr_issues_from_body_single() {
    assert_eq!(pr_issues_from_body(&"resolves #123"), Ok(vec![123]));
}

#[test]
fn test_pr_issues_from_body_multiple() {
    assert_eq!(pr_issues_from_body(&"resolves #123\nfix #456"), Ok(vec![123, 456]));
}

#[test]
fn test_pr_issues_from_body_no_duplicates() {
    assert_eq!(
        pr_issues_from_body(&"resolves #123\nfix #456\nsolved #123"),
        Ok(vec![123, 456])
    );
}

#[test]
fn test_pr_issues_from_body_invalid_prefix() {
    assert_eq!(pr_issues_from_body(&"resolv #123"), Ok(Vec::<u64>::new()));
}

#[test]
fn test_pr_issues_from_body_invalid_no_space() {
    assert_eq!(pr_issues_from_body(&"resolves#123"), Ok(Vec::<u64>::new()));
}

#[test]
fn test_pr_issues_from_body_invalid_no_number() {
    assert_eq!(pr_issues_from_body(&"resolves #"), Ok(Vec::<u64>::new()));
}

#[test]
fn test_pr_issues_from_body_invalid_no_prefix() {
    assert_eq!(pr_issues_from_body(&"#123"), Ok(Vec::<u64>::new()));
}

#[test]
fn every_keyword_closes() {
    let body = "close #1 closes #2 closed #3 fix #4 fixes #5 fixed #6 \
                resolve #7 resolves #8 resolved #9";
    assert_eq!(pr_issues_from_body(body), Ok(vec![1, 2, 3, 4, 5, 6, 7, 8, 9]));
}

#[test]
fn keywords_match_in_any_case() {
    assert_eq!(pr_issues_from_body("RESOLVES #123"), Ok(vec![123]));
    assert_eq!(pr_issues_from_body("Fixes #7, cLoSeD #3"), Ok(vec![3, 7]));
    assert_eq!(pr_issues_from_body("clo\u{17f}e #5"), Ok(vec![5]));
}

#[test]
fn order_is_by_number_not_by_place() {
    let one = pr_issues_from_body("fix #456\nresolves #123\ncloses #9");
    let other = pr_issues_from_body("closes #9 and closes #9\nresolves #123\nfix #456");
    assert_eq!(one, Ok(vec![9, 123, 456]));
    assert_eq!(one, other);
}

#[test]
fn duplicates_collapse() {
    assert_eq!(pr_issues_from_body("fix #5 fix #5 fixes #05 fixed #5"), Ok(vec![5]));
}

#[test]
fn white_space_between_keyword_and_hash() {
    assert_eq!(pr_issues_from_body("fix   #12"), Ok(vec![12]));
    assert_eq!(pr_issues_from_body("fix\t#12"), Ok(vec![12]));
    assert_eq!(pr_issues_from_body("fix\u{a0}#12"), Ok(vec![12]));
    assert_eq!(pr_issues_from_body("fix-#12"), Ok(Vec::<u64>::new()));
}

#[test]
fn hash_must_touch_the_digits() {
    assert_eq!(pr_issues_from_body("fix # 12"), Ok(Vec::<u64>::new()));
    assert_eq!(pr_issues_from_body("fix #x12"), Ok(Vec::<u64>::new()));
    assert_eq!(pr_issues_from_body("fix #\u{663}"), Ok(Vec::<u64>::new()));
}

#[test]
fn keyword_may_end_a_longer_word() {
    assert_eq!(pr_issues_from_body("prefix #3"), Ok(vec![3]));
    assert_eq!(pr_issues_from_body("this hotfixes #44."), Ok(vec![44]));
}

#[test]
fn digits_run_is_taken_whole() {
    assert_eq!(pr_issues_from_body("fix #12abc"), Ok(vec![12]));
    assert_eq!(pr_issues_from_body("fix #007"), Ok(vec![7]));
    assert_eq!(pr_issues_from_body("fix #0"), Ok(vec![0]));
}

#[test]
fn issue_numbers_hold_the_whole_range_of_64_bits() {
    assert_eq!(
        pr_issues_from_body("fix #18446744073709551615"),
        Ok(vec![18446744073709551615])
    );
}

#[test]
fn issue_number_beyond_64_bits_fails_the_whole_extraction() {
    assert_eq!(
        pr_issues_from_body("fix #1\ncloses #18446744073709551616\nfix #2"),
        Err(Error::UnparseableCapture)
    );
}

#[test]
fn overlong_digits_without_a_keyword_do_no_harm() {
    assert_eq!(
        pr_issues_from_body("see #18446744073709551616, fix #2"),
        Ok(vec![2])
    );
}

#[test]
fn insert_keeps_order_and_adds_nothing_twice() {
    let mut v: Vec<u64> = Vec::new();
    for x in [5u64, 1, 9, 5, 0, 9, 3] {
        insert_ascending(&mut v, x);
    }
    assert_eq!(v, vec![0, 1, 3, 5, 9]);
}
