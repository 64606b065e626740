use pr_title_issues::chars::{chars_of, digit, digits_from, letter, space, spaces_from};
use pr_title_issues::issues::{keyword_list, reference_at, word_at};
use pr_title_issues::number::{parse_digits, push_decimal};
use pr_title_issues::title::{fragment_at, push_tag, tag_at};

fn chars(s: &str) -> Vec<char> {
    s.chars().collect()
}

#[test]
fn chars_of_gives_each_character_once() {
    assert_eq!(chars_of(""), Vec::<char>::new());
    assert_eq!(chars_of("a#1"), vec!['a', '#', '1']);
    assert_eq!(chars_of("\u{e9}\u{2003}\u{1f600}z"), vec!['\u{e9}', '\u{2003}', '\u{1f600}', 'z']);
}

#[test]
fn character_classes() {
    assert!(digit('0') && digit('9') && !digit('/') && !digit(':') && !digit('\u{663}'));
    assert!(space(' ') && space('\n') && space('\u{3000}') && !space('\u{200b}') && !space('x'));
    assert!(letter('s', 's') && letter('S', 's') && letter('\u{17f}', 's'));
    assert!(!letter('s', 'x') && !letter('\u{17f}', 'f') && !letter('\u{212a}', 'x'));
}

#[test]
fn runs_end_where_the_class_ends() {
    let s = chars("ab123  \t#x");
    assert_eq!(digits_from(&s, 0), 0);
    assert_eq!(digits_from(&s, 2), 5);
    assert_eq!(digits_from(&s, 4), 5);
    assert_eq!(digits_from(&s, 10), 10);
    assert_eq!(spaces_from(&s, 5), 8);
    assert_eq!(spaces_from(&s, 8), 8);
    let t = chars("12");
    assert_eq!(digits_from(&t, 0), 2);
}

#[test]
fn parse_digits_reads_a_span() {
    let s = chars("x0042y18446744073709551615z18446744073709551616");
    assert_eq!(parse_digits(&s, 1, 5), Some(42));
    assert_eq!(parse_digits(&s, 1, 1), Some(0));
    assert_eq!(parse_digits(&s, 6, 26), Some(u64::MAX));
    assert_eq!(parse_digits(&s, 27, 47), None);
    assert_eq!(parse_digits(&s, 27, 46), Some(1844674407370955161));
}

#[test]
fn push_decimal_writes_the_shortest_numeral() {
    let mut out = String::from("n=");
    push_decimal(&mut out, 0);
    push_decimal(&mut out, 7);
    push_decimal(&mut out, 10);
    push_decimal(&mut out, 16901);
    push_decimal(&mut out, u64::MAX);
    assert_eq!(out, "n=07101690118446744073709551615");
}

#[test]
fn push_tag_brackets_the_number() {
    let mut out = String::from("t ");
    push_tag(&mut out, 123);
    assert_eq!(out, "t [#123]");
}

#[test]
fn keyword_list_holds_the_nine_keywords() {
    let words: Vec<String> = keyword_list().iter().map(|w| w.iter().collect()).collect();
    assert_eq!(
        words,
        vec![
            "close", "closes", "closed", "fix", "fixes", "fixed", "resolve", "resolves",
            "resolved"
        ]
    );
}

#[test]
fn word_at_reads_in_either_case() {
    let s = chars("a FiXes #1");
    assert!(word_at(&s, 2, &chars("fix")));
    assert!(word_at(&s, 2, &chars("fixes")));
    assert!(!word_at(&s, 2, &chars("fixed")));
    assert!(!word_at(&s, 1, &chars("fix")));
    assert!(!word_at(&s, 8, &chars("fix")));
    assert!(word_at(&s, 10, &chars("")));
}

#[test]
fn reference_at_gives_the_span_of_the_digits() {
    let s = chars("a fixes  #123b fix#4 fix #");
    assert_eq!(reference_at(&s, 2, &chars("fixes")), Some((10, 13)));
    assert_eq!(reference_at(&s, 2, &chars("fix")), None);
    assert_eq!(reference_at(&s, 15, &chars("fix")), None);
    assert_eq!(reference_at(&s, 21, &chars("fix")), None);
    assert_eq!(reference_at(&s, 26, &chars("fix")), None);
}

#[test]
fn tag_at_finds_a_bracketed_number() {
    let s = chars("x[#12] [#] [#3");
    assert_eq!(tag_at(&s, 1), 6);
    assert_eq!(tag_at(&s, 0), 0);
    assert_eq!(tag_at(&s, 7), 7);
    assert_eq!(tag_at(&s, 11), 11);
    assert_eq!(tag_at(&s, 14), 14);
}

#[test]
fn fragment_at_takes_one_space_each_side() {
    let s = chars("a  [#12]  b[#3]");
    assert_eq!(fragment_at(&s, 1), 1);
    assert_eq!(fragment_at(&s, 2), 9);
    assert_eq!(fragment_at(&s, 3), 9);
    assert_eq!(fragment_at(&s, 9), 9);
    assert_eq!(fragment_at(&s, 11), 15);
    assert_eq!(fragment_at(&s, 15), 15);
}
