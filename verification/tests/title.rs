use pr_title_issues::error::{Error, Field};
use pr_title_issues::run::retitle;
use pr_title_issues::title::{compose_title, sanitize_title, title_suffix};

#[test]
fn suffix_of_no_issue_is_empty() {
    assert_eq!(title_suffix(&[]), "");
}

#[test]
fn suffix_brackets_each_issue() {
    assert_eq!(title_suffix(&[123]), "[#123]");
    assert_eq!(title_suffix(&[123, 456]), "[#123] [#456]");
    assert_eq!(title_suffix(&[0, 10, 18446744073709551615]), "[#0] [#10] [#18446744073709551615]");
}

#[test]
fn sanitize_leaves_a_plain_title() {
    assert_eq!(sanitize_title("Add a parser"), "Add a parser");
    assert_eq!(sanitize_title(""), "");
    assert_eq!(sanitize_title("Use #12 and [12] and [#] and [#x]"), "Use #12 and [12] and [#] and [#x]");
}

#[test]
fn sanitize_takes_fragments_with_one_space_each_side() {
    assert_eq!(sanitize_title("Add a parser [#123]"), "Add a parser");
    assert_eq!(sanitize_title("Add a parser [#123] [#456]"), "Add a parser");
    assert_eq!(sanitize_title("[#1] Add a parser"), "Add a parser");
    assert_eq!(sanitize_title("Add [#1] a parser"), "Adda parser");
    assert_eq!(sanitize_title("Add  [#1]  a parser"), "Add  a parser");
    assert_eq!(sanitize_title("Add[#1]a"), "Adda");
    assert_eq!(sanitize_title("Add\t[#1]\u{a0}a"), "Adda");
}

#[test]
fn sanitize_needs_digits_and_both_brackets() {
    assert_eq!(sanitize_title("a [#12"), "a [#12");
    assert_eq!(sanitize_title("a [#12 ]"), "a [#12 ]");
    assert_eq!(sanitize_title("a [# 12]"), "a [# 12]");
    assert_eq!(sanitize_title("a [[#12]]"), "a []");
}

#[test]
fn sanitize_makes_one_pass() {
    assert_eq!(sanitize_title("[#[#1]2]"), "[#2]");
}

#[test]
fn compose_appends_the_issues() {
    assert_eq!(compose_title("Add a parser", &[123, 456]), "Add a parser [#123] [#456]");
}

#[test]
fn compose_replaces_an_earlier_suffix() {
    assert_eq!(compose_title("Add a parser [#1] [#2]", &[2, 3]), "Add a parser [#2] [#3]");
}

#[test]
fn compose_without_issues_leaves_a_trailing_space() {
    assert_eq!(compose_title("Add a parser", &[]), "Add a parser ");
    assert_eq!(compose_title("Add a parser [#1]", &[]), "Add a parser ");
}

#[test]
fn compose_twice_is_compose_once() {
    let issues = [7u64, 123, 456];
    for title in ["Add a parser", "", "Fix [#9] things", "a [#1] [#2]", "tail  "] {
        let once = compose_title(title, &issues);
        let twice = compose_title(&once, &issues);
        assert_eq!(twice, once);
    }
}

#[test]
fn compose_twice_differs_where_a_fragment_is_left_over() {
    let once = compose_title("[#[#1]2]", &[5]);
    assert_eq!(once, "[#2] [#5]");
    assert_eq!(compose_title(&once, &[5]), " [#5]");
}

#[test]
fn retitle_composes_from_title_and_description() {
    assert_eq!(
        retitle(Some("Add a parser [#1]"), Some("resolves #123\nfix #456\nsolved #123")),
        Ok(String::from("Add a parser [#123] [#456]"))
    );
    assert_eq!(
        retitle(Some("Add a parser"), Some("nothing to close")),
        Ok(String::from("Add a parser "))
    );
}

#[test]
fn retitle_needs_title_and_description() {
    assert_eq!(
        retitle(Some("Add a parser"), None),
        Err(Error::MissingPrecondition(Field::Body))
    );
    assert_eq!(
        retitle(None, Some("fix #1")),
        Err(Error::MissingPrecondition(Field::Title))
    );
    assert_eq!(retitle(None, None), Err(Error::MissingPrecondition(Field::Body)));
}

#[test]
fn retitle_makes_no_title_where_extraction_fails() {
    assert_eq!(
        retitle(Some("Add a parser"), Some("fix #99999999999999999999")),
        Err(Error::UnparseableCapture)
    );
    assert_eq!(
        retitle(None, Some("fix #99999999999999999999")),
        Err(Error::UnparseableCapture)
    );
}

#[test]
fn missing_field_messages_name_the_field() {
    assert_eq!(
        Error::MissingPrecondition(Field::Body).message(),
        "the pull request has no description"
    );
    assert_eq!(
        Error::MissingPrecondition(Field::Title).message(),
        "the pull request has no title"
    );
}
