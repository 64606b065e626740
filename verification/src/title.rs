//! Titles: taking the bracketed issue numbers out of one, and putting the
//! current ones behind it.

use vstd::prelude::*;
use vstd::string::{StrSliceExecFns, StringExecFns};
use crate::chars::{chars_of, digits_end, digits_from, is_space, space};
use crate::number::{decimal_digits, push_decimal};

verus! {

/// The end of the bracketed issue number, `[#` digits `]`, that starts at
/// `p`; `p` itself where none starts there.
pub open spec fn tag_end(s: Seq<char>, p: int) -> int {
    let d = digits_end(s, p + 2);
    if 0 <= p && p + 2 < d < s.len() && s[p] == '[' && s[p + 1] == '#' && s[d] == ']' {
        d + 1
    } else {
        p
    }
}

/// The end of the fragment that starts at `p`: a bracketed issue number
/// with one white space before it and one behind it, where there is one;
/// `p` itself where no fragment starts there.
pub open spec fn fragment_end(s: Seq<char>, p: int) -> int {
    let c = if 0 <= p < s.len() && is_space(s[p]) {
        p + 1
    } else {
        p
    };
    let e = tag_end(s, c);
    if e == c {
        p
    } else if e < s.len() && is_space(s[e]) {
        e + 1
    } else {
        e
    }
}

/// What is left of `s` from `p` on when each fragment is taken out, the
/// leftmost first, and the search goes on behind it.
pub open spec fn strip_from(s: Seq<char>, p: int) -> Seq<char>
    decreases s.len() - p,
{
    if p < 0 || p >= s.len() {
        Seq::empty()
    } else if fragment_end(s, p) > p {
        strip_from(s, fragment_end(s, p))
    } else {
        seq![s[p]] + strip_from(s, p + 1)
    }
}

/// The title `s` without its fragments.
pub open spec fn sanitized(s: Seq<char>) -> Seq<char> {
    strip_from(s, 0)
}

/// The issue `n` in brackets: `[#n]`.
pub open spec fn tag(n: u64) -> Seq<char> {
    seq!['[', '#'] + decimal_digits(n as nat) + seq![']']
}

/// The tags of `issues` in their order, one space between two of them.
pub open spec fn suffix(issues: Seq<u64>) -> Seq<char>
    decreases issues.len(),
{
    if issues.len() == 0 {
        Seq::empty()
    } else if issues.len() == 1 {
        tag(issues[0])
    } else {
        tag(issues[0]) + seq![' '] + suffix(issues.drop_first())
    }
}

/// The new title: the old one without its fragments, a space, and the
/// tags of `issues`. The space stands there also where `issues` is empty.
pub open spec fn composed(title: Seq<char>, issues: Seq<u64>) -> Seq<char> {
    sanitized(title) + seq![' '] + suffix(issues)
}

/// Finds the end of the bracketed issue number that starts at `p`.
pub fn tag_at(s: &Vec<char>, p: usize) -> (e: usize)
    requires
        p <= s.len(),
    ensures
        e == tag_end(s@, p as int),
        p <= e <= s.len(),
{
    if s.len() - p < 4 || s[p] != '[' || s[p + 1] != '#' {
        return p;
    }
    let d = digits_from(s, p + 2);
    if d == p + 2 || d >= s.len() || s[d] != ']' {
        return p;
    }
    d + 1
}

/// Finds the end of the fragment that starts at `p`.
pub fn fragment_at(s: &Vec<char>, p: usize) -> (e: usize)
    requires
        p <= s.len(),
    ensures
        e == fragment_end(s@, p as int),
        p <= e <= s.len(),
{
    let c = if p < s.len() && space(s[p]) {
        p + 1
    } else {
        p
    };
    let e = tag_at(s, c);
    if e == c {
        p
    } else if e < s.len() && space(s[e]) {
        e + 1
    } else {
        e
    }
}

/// The title without its fragments.
pub fn sanitize_title(title: &str) -> (r: String)
    ensures
        r@ == sanitized(title@),
{
    let s = chars_of(title);
    let mut out = String::new();
    let mut kept: usize = 0;
    let mut p: usize = 0;
    while p < s.len()
        invariant
            kept <= p <= s.len(),
            s@ == title@,
            out@ + s@.subrange(kept as int, p as int) + strip_from(s@, p as int) == sanitized(s@),
        decreases s.len() - p,
    {
        let e = fragment_at(&s, p);
        if e > p {
            out.append(title.substring_char(kept, p));
            kept = e;
            p = e;
            assert(s@.subrange(kept as int, p as int) =~= Seq::<char>::empty());
            assert(out@ + Seq::<char>::empty() =~= out@);
        } else {
            assert(s@.subrange(kept as int, p as int) + seq![s@[p as int]] =~= s@.subrange(
                kept as int,
                p + 1,
            ));
            assert(out@ + s@.subrange(kept as int, p as int) + (seq![s@[p as int]] + strip_from(
                s@,
                p + 1,
            )) =~= out@ + s@.subrange(kept as int, p + 1) + strip_from(s@, p + 1));
            p = p + 1;
        }
    }
    out.append(title.substring_char(kept, p));
    assert(out@ =~= sanitized(s@));
    out
}

/// Appends `[#n]` to `out`.
pub fn push_tag(out: &mut String, n: u64)
    ensures
        final(out)@ == old(out)@ + tag(n),
{
    proof {
        reveal_strlit("[#");
        reveal_strlit("]");
    }
    out.append("[#");
    push_decimal(out, n);
    out.append("]");
    assert(final(out)@ =~= old(out)@ + tag(n));
}

/// The suffix of a list that has one issue more behind it.
pub proof fn lemma_suffix_push(issues: Seq<u64>, n: u64)
    requires
        issues.len() > 0,
    ensures
        suffix(issues.push(n)) == suffix(issues) + seq![' '] + tag(n),
    decreases issues.len(),
{
    let more = issues.push(n);
    assert(more.drop_first() =~= issues.drop_first().push(n));
    if issues.len() == 1 {
        assert(more.drop_first() =~= seq![n]);
        assert(suffix(more.drop_first()) == tag(n));
    } else {
        lemma_suffix_push(issues.drop_first(), n);
        assert(suffix(more) =~= suffix(issues) + seq![' '] + tag(n));
    }
}

/// The tags of `issues`, one space between two of them.
pub fn title_suffix(issues: &[u64]) -> (r: String)
    ensures
        r@ == suffix(issues@),
{
    let mut out = String::new();
    let mut i: usize = 0;
    while i < issues.len()
        invariant
            i <= issues.len(),
            out@ == suffix(issues@.take(i as int)),
        decreases issues.len() - i,
    {
        proof {
            reveal_strlit(" ");
            assert(issues@.take(i + 1) =~= issues@.take(i as int).push(issues@[i as int]));
            if i > 0 {
                lemma_suffix_push(issues@.take(i as int), issues@[i as int]);
            }
        }
        if i > 0 {
            out.append(" ");
        }
        push_tag(&mut out, issues[i]);
        assert(out@ =~= suffix(issues@.take(i + 1)));
        i = i + 1;
    }
    assert(issues@.take(i as int) =~= issues@);
    out
}

/// The new title for a pull request that closes `issues`: `old_title`
/// without the issue numbers put behind it earlier, a space, and the
/// issue numbers of now.
pub fn compose_title(old_title: &str, issues: &[u64]) -> (r: String)
    ensures
        r@ == composed(old_title@, issues@),
{
    let mut out = sanitize_title(old_title);
    let tags = title_suffix(issues);
    proof {
        reveal_strlit(" ");
    }
    out.append(" ");
    out.append(tags.as_str());
    assert(out@ =~= composed(old_title@, issues@));
    out
}

} // verus!
