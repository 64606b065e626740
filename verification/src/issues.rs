//! The issues that a pull request's description says it closes.
//!
//! A closing reference is one of nine keywords in any case, then white
//! space, then `#` and a run of digits directly behind it.

use vstd::prelude::*;
use crate::chars::{
    all_digits, chars_of, digit, digits_end, digits_from, is_digit, lemma_spaces_end, letter,
    same_letter, spaces_end, spaces_from,
};
use crate::error::Error;
use crate::listing::{
    ascending, insert_ascending, lemma_list_unique, lemma_with_number, lists, with_number,
};
use crate::number::{decimal_value, parse_digits};

verus! {

/// The closing keywords, in lower case.
pub open spec fn keywords() -> Seq<Seq<char>> {
    seq![
        "close"@,
        "closes"@,
        "closed"@,
        "fix"@,
        "fixes"@,
        "fixed"@,
        "resolve"@,
        "resolves"@,
        "resolved"@,
    ]
}

/// The letters of `word` stand in `s` from `p` on, in either case.
pub open spec fn is_word_at(s: Seq<char>, p: int, word: Seq<char>) -> bool {
    &&& 0 <= p
    &&& p + word.len() <= s.len()
    &&& forall|j: int| 0 <= j < word.len() ==> same_letter(#[trigger] s[p + j], word[j])
}

/// The position of the `#` that a closing reference with `word` at `p`
/// must have: the first position behind the white space that follows the
/// word.
pub open spec fn hash_position(s: Seq<char>, p: int, word: Seq<char>) -> int {
    spaces_end(s, p + word.len())
}

/// A closing reference with the keyword `word` starts at `p`.
pub open spec fn closes_at(s: Seq<char>, p: int, word: Seq<char>) -> bool {
    let h = hash_position(s, p, word);
    &&& is_word_at(s, p, word)
    &&& p + word.len() < h
    &&& h + 1 < s.len()
    &&& s[h] == '#'
    &&& is_digit(s[h + 1])
}

/// The digits of the closing reference with `word` at `p`: the longest
/// run behind its `#`.
pub open spec fn closed_digits(s: Seq<char>, p: int, word: Seq<char>) -> Seq<char> {
    let d = hash_position(s, p, word) + 1;
    s.subrange(d, digits_end(s, d))
}

/// The closing reference that starts at `p` with the keyword of index `k`
/// names the issue `n`.
pub open spec fn names_issue(s: Seq<char>, p: int, k: int, n: nat) -> bool {
    &&& 0 <= k < keywords().len()
    &&& closes_at(s, p, keywords()[k])
    &&& decimal_value(closed_digits(s, p, keywords()[k])) == n
}

/// The issues that the closing references in `s` name.
pub open spec fn issue_refs(s: Seq<char>) -> Set<nat> {
    Set::new(|n: nat| exists|p: int, k: int| #[trigger] names_issue(s, p, k, n))
}

/// The issues that `s` names, each once, the least first; this is what
/// `lists` them, where every one of them fits 64 bits.
pub open spec fn issue_list(s: Seq<char>) -> Seq<u64> {
    choose|v: Seq<u64>| lists(v, issue_refs(s))
}

/// What the extraction gives for the description `s`.
pub open spec fn extracted(s: Seq<char>) -> Result<Seq<u64>, Error> {
    if exists|n: nat| issue_refs(s).contains(n) && n > u64::MAX {
        Err(Error::UnparseableCapture)
    } else {
        Ok(issue_list(s))
    }
}

/// Some closing reference that the scan meets before the keyword of
/// index `k` at `p` names the issue `n`.
pub open spec fn seen(s: Seq<char>, p: int, k: int, n: nat) -> bool {
    exists|q: int, j: int| (q < p || (q == p && j < k)) && #[trigger] names_issue(s, q, j, n)
}

/// The scan goes from one keyword to the next: what it has met behind the
/// keyword of index `k` at `p` is what it had met before, and what that
/// keyword closes there.
pub proof fn lemma_seen_step(s: Seq<char>, p: int, k: int, n: nat)
    ensures
        seen(s, p, k + 1, n) <==> seen(s, p, k, n) || names_issue(s, p, k, n),
{
    if seen(s, p, k + 1, n) {
        let (q, j) = choose|q: int, j: int|
            (q < p || (q == p && j < k + 1)) && #[trigger] names_issue(s, q, j, n);
        if !(q == p && j == k) {
            assert(names_issue(s, q, j, n));
        }
    }
    if seen(s, p, k, n) {
        let (q, j) = choose|q: int, j: int|
            (q < p || (q == p && j < k)) && #[trigger] names_issue(s, q, j, n);
        assert(names_issue(s, q, j, n));
    }
}

/// The scan goes from one position to the next: before the first keyword
/// at `p + 1` it has met what it has met behind the last keyword at `p`.
pub proof fn lemma_seen_next(s: Seq<char>, p: int, n: nat)
    ensures
        seen(s, p + 1, 0, n) <==> seen(s, p, keywords().len() as int, n),
{
    let width = keywords().len() as int;
    if seen(s, p + 1, 0, n) {
        let (q, j) = choose|q: int, j: int|
            (q < p + 1 || (q == p + 1 && j < 0)) && #[trigger] names_issue(s, q, j, n);
        assert(names_issue(s, q, j, n));
    }
    if seen(s, p, width, n) {
        let (q, j) = choose|q: int, j: int|
            (q < p || (q == p && j < width)) && #[trigger] names_issue(s, q, j, n);
        assert(names_issue(s, q, j, n));
    }
}

/// At the end of the description the scan has met every issue that it names.
pub proof fn lemma_seen_all(s: Seq<char>, n: nat)
    ensures
        seen(s, s.len() as int, 0, n) <==> issue_refs(s).contains(n),
{
    let end = s.len() as int;
    if issue_refs(s).contains(n) {
        let (q, j) = choose|q: int, j: int| #[trigger] names_issue(s, q, j, n);
        lemma_reference_inside(s, q, j, n);
    }
    if seen(s, end, 0, n) {
        let (q, j) = choose|q: int, j: int|
            (q < end || (q == end && j < 0)) && #[trigger] names_issue(s, q, j, n);
        assert(names_issue(s, q, j, n));
    }
}

/// Every closing reference starts inside the description.
pub proof fn lemma_reference_inside(s: Seq<char>, p: int, k: int, n: nat)
    requires
        names_issue(s, p, k, n),
    ensures
        0 <= p < s.len(),
{
    lemma_spaces_end(s, p + keywords()[k].len());
}

/// The issues that the scan has met before the keyword of index `k` at
/// `p` have a list, where each of them fits 64 bits.
proof fn lemma_seen_listed(s: Seq<char>, p: int, k: int) -> (v: Seq<u64>)
    requires
        0 <= p,
        0 <= k <= keywords().len(),
        forall|n: nat| issue_refs(s).contains(n) ==> n <= u64::MAX,
    ensures
        lists(v, Set::new(|n: nat| seen(s, p, k, n))),
    decreases p, k,
{
    let now = Set::new(|n: nat| seen(s, p, k, n));
    if k == 0 && p == 0 {
        assert forall|n: nat| !now.contains(n) by {
            if seen(s, p, k, n) {
                let (q, j) = choose|q: int, j: int|
                    (q < p || (q == p && j < k)) && #[trigger] names_issue(s, q, j, n);
            }
        }
        Seq::<u64>::empty()
    } else if k == 0 {
        let width = keywords().len() as int;
        let v = lemma_seen_listed(s, p - 1, width);
        let before = Set::new(|n: nat| seen(s, p - 1, width, n));
        assert forall|n: nat| now.contains(n) <==> before.contains(n) by {
            lemma_seen_next(s, p - 1, n);
        }
        assert(now =~= before);
        v
    } else {
        let u = lemma_seen_listed(s, p, k - 1);
        let before = Set::new(|n: nat| seen(s, p, k - 1, n));
        let word = keywords()[k - 1];
        if closes_at(s, p, word) {
            let found = decimal_value(closed_digits(s, p, word));
            assert(names_issue(s, p, k - 1, found));
            assert(issue_refs(s).contains(found));
            let x = found as u64;
            lemma_with_number(u, x);
            let v = with_number(u, x);
            assert forall|n: nat| now.contains(n) implies n <= u64::MAX && v.contains(
                n as u64,
            ) by {
                lemma_seen_step(s, p, k - 1, n);
                if !names_issue(s, p, k - 1, n) {
                    assert(before.contains(n));
                    assert(u.contains(n as u64));
                }
            }
            assert forall|y: u64| v.contains(y) implies now.contains(y as nat) by {
                lemma_seen_step(s, p, k - 1, y as nat);
                if u.contains(y) {
                    assert(before.contains(y as nat));
                }
            }
            v
        } else {
            assert forall|n: nat| now.contains(n) <==> before.contains(n) by {
                lemma_seen_step(s, p, k - 1, n);
            }
            assert(now =~= before);
            u
        }
    }
}

/// Where every issue that `s` names fits 64 bits, `issue_list(s)` is
/// their list.
pub proof fn lemma_issue_list(s: Seq<char>)
    requires
        forall|n: nat| issue_refs(s).contains(n) ==> n <= u64::MAX,
    ensures
        lists(issue_list(s), issue_refs(s)),
        extracted(s) == Ok::<Seq<u64>, Error>(issue_list(s)),
{
    let end = s.len() as int;
    let v = lemma_seen_listed(s, end, 0);
    let all = Set::new(|n: nat| seen(s, end, 0, n));
    assert forall|n: nat| all.contains(n) <==> issue_refs(s).contains(n) by {
        lemma_seen_all(s, n);
    }
    assert(all =~= issue_refs(s));
}

/// The order of the result depends on the issues named alone: two
/// descriptions that name the same issues, in whatever order and however
/// often, give the same list.
pub proof fn lemma_order_is_by_number(a: Seq<char>, b: Seq<char>)
    requires
        forall|n: nat| issue_refs(a).contains(n) <==> issue_refs(b).contains(n),
    ensures
        extracted(a) == extracted(b),
        issue_list(a) == issue_list(b),
{
    assert(issue_refs(a) =~= issue_refs(b));
}

/// Tells whether the letters of `word` stand in `s` from `p` on.
pub fn word_at(s: &Vec<char>, p: usize, word: &Vec<char>) -> (r: bool)
    requires
        p <= s.len(),
    ensures
        r == is_word_at(s@, p as int, word@),
{
    if word.len() > s.len() - p {
        return false;
    }
    let mut j: usize = 0;
    while j < word.len()
        invariant
            j <= word.len(),
            p + word.len() <= s.len(),
            forall|i: int| 0 <= i < j ==> same_letter(#[trigger] s@[p + i], word@[i]),
        decreases word.len() - j,
    {
        if !letter(s[p + j], word[j]) {
            return false;
        }
        j = j + 1;
    }
    true
}

/// The vectors of `v` hold the words of `words`, in their order.
pub open spec fn spells(v: Seq<Vec<char>>, words: Seq<Seq<char>>) -> bool {
    &&& v.len() == words.len()
    &&& forall|k: int| 0 <= k < v.len() ==> (#[trigger] v[k])@ == words[k]
}

/// The closing keywords as characters.
pub fn keyword_list() -> (r: Vec<Vec<char>>)
    ensures
        spells(r@, keywords()),
{
    let mut r: Vec<Vec<char>> = Vec::new();
    r.push(chars_of("close"));
    r.push(chars_of("closes"));
    r.push(chars_of("closed"));
    r.push(chars_of("fix"));
    r.push(chars_of("fixes"));
    r.push(chars_of("fixed"));
    r.push(chars_of("resolve"));
    r.push(chars_of("resolves"));
    r.push(chars_of("resolved"));
    r
}

/// The span of the digits of the closing reference with `word` at `p`,
/// if there is one.
pub fn reference_at(s: &Vec<char>, p: usize, word: &Vec<char>) -> (r: Option<(usize, usize)>)
    requires
        p <= s.len(),
    ensures
        r is Some <==> closes_at(s@, p as int, word@),
        r matches Some((from, to)) ==> {
            &&& from <= to <= s.len()
            &&& s@.subrange(from as int, to as int) == closed_digits(s@, p as int, word@)
            &&& all_digits(s@.subrange(from as int, to as int))
        },
{
    if !word_at(s, p, word) {
        return None;
    }
    let w = p + word.len();
    let h = spaces_from(s, w);
    if h == w || h >= s.len() {
        return None;
    }
    if s[h] != '#' {
        return None;
    }
    if h + 1 >= s.len() || !digit(s[h + 1]) {
        return None;
    }
    let to = digits_from(s, h + 1);
    Some((h + 1, to))
}

/// The issues that `body` says the pull request closes, each once, the
/// least first. Fails where the digits of a closing reference are more
/// than 64 bits hold.
pub fn pr_issues_from_body(body: &str) -> (r: Result<Vec<u64>, Error>)
    ensures
        match r {
            Ok(v) => lists(v@, issue_refs(body@)) && extracted(body@) == Ok::<Seq<u64>, Error>(
                v@,
            ),
            Err(e) => e == Error::UnparseableCapture && extracted(body@) == Err::<
                Seq<u64>,
                Error,
            >(e),
        },
{
    let s = chars_of(body);
    let words = keyword_list();
    let mut found: Vec<u64> = Vec::new();
    let mut p: usize = 0;
    assert forall|n: nat| !seen(s@, 0, 0, n) by {
        if seen(s@, 0, 0, n) {
            let (q, j) = choose|q: int, j: int|
                (q < 0 || (q == 0 && j < 0)) && #[trigger] names_issue(s@, q, j, n);
        }
    }
    while p < s.len()
        invariant
            p <= s.len(),
            s@ == body@,
            spells(words@, keywords()),
            ascending(found@),
            forall|n: nat| seen(s@, p as int, 0, n) ==> n <= u64::MAX && found@.contains(n as u64),
            forall|x: u64| found@.contains(x) ==> seen(s@, p as int, 0, x as nat),
        decreases s.len() - p,
    {
        let mut k: usize = 0;
        while k < words.len()
            invariant
                p < s.len(),
                s@ == body@,
                k <= words.len(),
                spells(words@, keywords()),
                ascending(found@),
                forall|n: nat|
                    seen(s@, p as int, k as int, n) ==> n <= u64::MAX && found@.contains(n as u64),
                forall|x: u64| found@.contains(x) ==> seen(s@, p as int, k as int, x as nat),
            decreases words.len() - k,
        {
            let ghost before = found@;
            let ghost after: int = k + 1;
            assert(words@[k as int]@ == keywords()[k as int]);
            match reference_at(&s, p, &words[k]) {
                Some((from, to)) => {
                    match parse_digits(&s, from, to) {
                        Some(x) => {
                            insert_ascending(&mut found, x);
                            assert(names_issue(s@, p as int, k as int, x as nat));
                        },
                        None => {
                            proof {
                                let n = decimal_value(s@.subrange(from as int, to as int));
                                assert(names_issue(s@, p as int, k as int, n));
                                assert(issue_refs(s@).contains(n) && n > u64::MAX);
                            }
                            return Err(Error::UnparseableCapture);
                        },
                    }
                },
                None => {},
            }
            proof {
                assert forall|n: nat| seen(s@, p as int, after, n) implies n <= u64::MAX
                    && found@.contains(n as u64) by {
                    lemma_seen_step(s@, p as int, k as int, n);
                    if seen(s@, p as int, k as int, n) {
                        assert(before.contains(n as u64));
                    }
                }
                assert forall|x: u64| found@.contains(x) implies seen(
                    s@,
                    p as int,
                    after,
                    x as nat,
                ) by {
                    lemma_seen_step(s@, p as int, k as int, x as nat);
                    if before.contains(x) {
                        assert(seen(s@, p as int, k as int, x as nat));
                    }
                }
            }
            k = k + 1;
        }
        proof {
            let ghost next: int = p + 1;
            assert forall|n: nat| seen(s@, next, 0, n) implies n <= u64::MAX && found@.contains(
                n as u64,
            ) by {
                lemma_seen_next(s@, p as int, n);
            }
            assert forall|x: u64| found@.contains(x) implies seen(s@, next, 0, x as nat) by {
                lemma_seen_next(s@, p as int, x as nat);
            }
        }
        p = p + 1;
    }
    proof {
        let refs = issue_refs(s@);
        assert forall|n: nat| refs.contains(n) implies n <= u64::MAX && found@.contains(
            n as u64,
        ) by {
            lemma_seen_all(s@, n);
        }
        assert forall|x: u64| found@.contains(x) implies refs.contains(x as nat) by {
            lemma_seen_all(s@, x as nat);
        }
        assert(lists(found@, refs));
        lemma_list_unique(found@, issue_list(s@), refs);
    }
    Ok(found)
}

} // verus!
