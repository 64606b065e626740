//! The pull request number in a reference such as `refs/pull/16901/merge`.

use vstd::prelude::*;
use crate::chars::{chars_of, digit, digits_end, digits_from, is_digit, lemma_digits_end};
use crate::error::Error;
use crate::number::{decimal_value, parse_digits};

verus! {

/// Some character of `s` is a digit.
pub open spec fn has_digit(s: Seq<char>) -> bool {
    exists|i: int| 0 <= i < s.len() && is_digit(#[trigger] s[i])
}

/// The first position at or after `from` that holds a digit, or the
/// length of `s` where none does.
pub open spec fn digits_start(s: Seq<char>, from: int) -> int
    decreases s.len() - from,
{
    if from < 0 || from >= s.len() {
        s.len() as int
    } else if is_digit(s[from]) {
        from
    } else {
        digits_start(s, from + 1)
    }
}

/// The digits from `start` up to `end` are the leftmost run of digits in
/// `s`, and no longer run starts there.
pub open spec fn is_first_run(s: Seq<char>, start: int, end: int) -> bool {
    &&& 0 <= start < end <= s.len()
    &&& forall|i: int| 0 <= i < start ==> !is_digit(#[trigger] s[i])
    &&& forall|i: int| start <= i < end ==> is_digit(#[trigger] s[i])
    &&& end < s.len() ==> !is_digit(s[end])
}

/// The leftmost longest run of digits in `s`; empty where `s` holds no digit.
pub open spec fn first_run(s: Seq<char>) -> Seq<char> {
    let start = digits_start(s, 0);
    s.subrange(start, digits_end(s, start))
}

/// The pull request that the reference `s` names.
pub open spec fn pr_number(s: Seq<char>) -> Result<u64, Error> {
    if !has_digit(s) {
        Err(Error::MalformedReference)
    } else if decimal_value(first_run(s)) > u64::MAX {
        Err(Error::IdentifierOverflow)
    } else {
        Ok(decimal_value(first_run(s)) as u64)
    }
}

/// No digit stands between `from` and `digits_start(s, from)`, and one
/// stands there unless that is the end of `s`.
pub proof fn lemma_digits_start(s: Seq<char>, from: int)
    requires
        0 <= from <= s.len(),
    ensures
        from <= digits_start(s, from) <= s.len(),
        forall|i: int| from <= i < digits_start(s, from) ==> !is_digit(#[trigger] s[i]),
        digits_start(s, from) < s.len() ==> is_digit(s[digits_start(s, from)]),
    decreases s.len() - from,
{
    if from < s.len() && !is_digit(s[from]) {
        lemma_digits_start(s, from + 1);
    }
}

/// A reference with a digit has exactly one leftmost longest run of
/// digits, and `first_run` is that run.
pub proof fn lemma_first_run(s: Seq<char>)
    requires
        has_digit(s),
    ensures
        is_first_run(s, digits_start(s, 0), digits_end(s, digits_start(s, 0))),
        forall|a: int, b: int| is_first_run(s, a, b) ==> s.subrange(a, b) == first_run(s),
{
    let start = digits_start(s, 0);
    let end = digits_end(s, start);
    lemma_digits_start(s, 0);
    lemma_digits_end(s, start);
    let w = choose|i: int| 0 <= i < s.len() && is_digit(#[trigger] s[i]);
    assert(start <= w);
    assert forall|a: int, b: int| is_first_run(s, a, b) implies s.subrange(a, b) == first_run(
        s,
    ) by {
        if a < start {
            assert(is_digit(s[a]));
        }
        if start < a {
            assert(is_digit(s[start]));
        }
        if b < end {
            assert(is_digit(s[b]));
        }
        if end < b {
            assert(is_digit(s[end]));
        }
    }
}

/// The number of the pull request that `gh_ref` names: the value of the
/// leftmost longest run of digits in it.
pub fn pr_num_from_gh_ref(gh_ref: &str) -> (r: Result<u64, Error>)
    ensures
        r == pr_number(gh_ref@),
{
    let s = chars_of(gh_ref);
    let mut start: usize = 0;
    while start < s.len() && !digit(s[start])
        invariant
            start <= s.len(),
            digits_start(s@, 0) == digits_start(s@, start as int),
        decreases s.len() - start,
    {
        start = start + 1;
    }
    proof {
        lemma_digits_start(s@, 0);
    }
    if start == s.len() {
        return Err(Error::MalformedReference);
    }
    assert(is_digit(s@[start as int]));
    let end = digits_from(&s, start);
    match parse_digits(&s, start, end) {
        Some(n) => Ok(n),
        None => Err(Error::IdentifierOverflow),
    }
}

} // verus!
