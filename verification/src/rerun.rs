//! What a second run does to a title that an earlier run has made.

use vstd::prelude::*;
use crate::chars::{digits_end, is_digit, is_space, lemma_digits_end, lemma_digits_end_is};
use crate::number::{decimal_digits, lemma_decimal_digits};
use crate::error::Error;
use crate::issues::extracted;
use crate::run::retitled;
use crate::title::{composed, fragment_end, sanitized, strip_from, suffix, tag, tag_end};

verus! {

/// A run of digits in `x` ends where it ends in `x` with `y` behind it,
/// where `y` does not start with a digit.
pub proof fn lemma_digits_end_prefix(x: Seq<char>, y: Seq<char>, q: int)
    requires
        0 <= q <= x.len(),
        y.len() > 0,
        !is_digit(y[0]),
    ensures
        digits_end(x + y, q) == digits_end(x, q),
    decreases x.len() - q,
{
    let z = x + y;
    if q < x.len() {
        assert(z[q] == x[q]);
        if is_digit(x[q]) {
            lemma_digits_end_prefix(x, y, q + 1);
        }
    } else {
        assert(z[q] == y[0]);
    }
}

/// A run of digits in `b` ends at the same place when `a` stands before `b`.
pub proof fn lemma_digits_end_shift(a: Seq<char>, b: Seq<char>, q: int)
    requires
        0 <= q <= b.len(),
    ensures
        digits_end(a + b, a.len() + q) == a.len() + digits_end(b, q),
    decreases b.len() - q,
{
    let z = a + b;
    if q < b.len() {
        assert(z[a.len() + q] == b[q]);
        if is_digit(b[q]) {
            lemma_digits_end_shift(a, b, q + 1);
        }
    }
}

/// A bracketed issue number in `x` is one in `x` with a space and more
/// behind it, and the other way round.
pub proof fn lemma_tag_end_prefix(x: Seq<char>, y: Seq<char>, c: int)
    requires
        0 <= c <= x.len(),
        y.len() > 0,
        y[0] == ' ',
    ensures
        tag_end(x + y, c) == tag_end(x, c),
{
    let z = x + y;
    assert(z[x.len() as int] == y[0]);
    if c + 2 <= x.len() {
        lemma_digits_end_prefix(x, y, c + 2);
        lemma_digits_end(x, c + 2);
        assert(z[c] == x[c]);
        assert(z[c + 1] == x[c + 1]);
        let d = digits_end(x, c + 2);
        if d < x.len() {
            assert(z[d] == x[d]);
        }
    } else if c + 1 == x.len() {
        assert(z[c + 1] == ' ');
    }
}

/// A bracketed issue number in `b` stays one when `a` stands before `b`.
pub proof fn lemma_tag_end_shift(a: Seq<char>, b: Seq<char>, q: int)
    requires
        0 <= q <= b.len(),
    ensures
        tag_end(a + b, a.len() + q) == a.len() + tag_end(b, q),
{
    let z = a + b;
    let n = a.len() as int;
    if q + 2 <= b.len() {
        lemma_digits_end_shift(a, b, q + 2);
        lemma_digits_end(b, q + 2);
        assert(z[n + q] == b[q]);
        assert(z[n + q + 1] == b[q + 1]);
        let d = digits_end(b, q + 2);
        if d < b.len() {
            assert(z[n + d] == b[d]);
        }
    }
}

/// A fragment in `b` stays one when `a` stands before `b`.
pub proof fn lemma_fragment_end_shift(a: Seq<char>, b: Seq<char>, q: int)
    requires
        0 <= q <= b.len(),
    ensures
        fragment_end(a + b, a.len() + q) == a.len() + fragment_end(b, q),
{
    let z = a + b;
    let n = a.len() as int;
    if q < b.len() {
        assert(z[n + q] == b[q]);
    }
    let c = if q < b.len() && is_space(b[q]) {
        q + 1
    } else {
        q
    };
    lemma_tag_end_shift(a, b, c);
    let e = tag_end(b, c);
    lemma_tag_end_bounds(b, c);
    if e < b.len() {
        assert(z[n + e] == b[e]);
    }
}

/// A bracketed issue number ends inside the sequence, at least four
/// characters behind its start.
pub proof fn lemma_tag_end_bounds(s: Seq<char>, p: int)
    requires
        0 <= p <= s.len(),
    ensures
        tag_end(s, p) == p || p + 4 <= tag_end(s, p) <= s.len(),
{
}

/// A fragment ends inside the sequence.
pub proof fn lemma_fragment_end_bounds(s: Seq<char>, p: int)
    requires
        0 <= p <= s.len(),
    ensures
        fragment_end(s, p) == p || p + 4 <= fragment_end(s, p) <= s.len(),
{
    let c = if p < s.len() && is_space(s[p]) {
        p + 1
    } else {
        p
    };
    lemma_tag_end_bounds(s, c);
}

/// What is left of `b` from `q` on is the same when `a` stands before `b`.
pub proof fn lemma_strip_shift(a: Seq<char>, b: Seq<char>, q: int)
    requires
        0 <= q <= b.len(),
    ensures
        strip_from(a + b, a.len() + q) == strip_from(b, q),
    decreases b.len() - q,
{
    let z = a + b;
    let n = a.len() as int;
    if q < b.len() {
        lemma_fragment_end_shift(a, b, q);
        lemma_fragment_end_bounds(b, q);
        let e = fragment_end(b, q);
        if e > q {
            lemma_strip_shift(a, b, e);
        } else {
            assert(z[n + q] == b[q]);
            lemma_strip_shift(a, b, q + 1);
        }
    }
}

/// Where a tag stands in a sequence, a bracketed issue number starts and
/// ends with it.
pub proof fn lemma_tag_is_found(a: Seq<char>, n: u64, r: Seq<char>)
    ensures
        tag_end(a + tag(n) + r, a.len() as int) == a.len() + tag(n).len(),
        tag(n).len() >= 4,
{
    let s = a + tag(n) + r;
    let p = a.len() as int;
    let digits = decimal_digits(n as nat);
    lemma_decimal_digits(n as nat);
    let d = p + 2 + digits.len();
    assert(s[p] == tag(n)[0]);
    assert(s[p + 1] == tag(n)[1]);
    assert(s[d] == tag(n)[d - p]);
    assert forall|i: int| p + 2 <= i < d implies is_digit(#[trigger] s[i]) by {
        assert(s[i] == tag(n)[i - p]);
        assert(tag(n)[i - p] == digits[i - p - 2]);
    }
    lemma_digits_end_is(s, p + 2, d);
}

/// Nothing is left of a list of tags, with or without a white space
/// before it.
pub proof fn lemma_suffix_strips(lead: Seq<char>, issues: Seq<u64>)
    requires
        issues.len() > 0,
        lead.len() == 0 || (lead.len() == 1 && is_space(lead[0])),
    ensures
        strip_from(lead + suffix(issues), 0) == Seq::<char>::empty(),
    decreases issues.len(),
{
    let t = tag(issues[0]);
    let s = lead + suffix(issues);
    let k = lead.len() as int;
    if issues.len() == 1 {
        assert(s =~= lead + t + Seq::<char>::empty());
        lemma_tag_is_found(lead, issues[0], Seq::<char>::empty());
        assert(tag_end(s, k) == s.len());
        if k == 1 {
            assert(s[0] == lead[0]);
        } else {
            assert(s[0] == t[0]);
        }
        assert(fragment_end(s, 0) == s.len());
        assert(strip_from(s, s.len() as int) == Seq::<char>::empty());
        assert(strip_from(s, 0) == strip_from(s, s.len() as int));
    } else {
        let rest = suffix(issues.drop_first());
        let r = seq![' '] + rest;
        assert(s =~= lead + t + r);
        lemma_tag_is_found(lead, issues[0], r);
        let e = k + t.len();
        assert(tag_end(s, k) == e);
        assert(s[e] == r[0]);
        if k == 1 {
            assert(s[0] == lead[0]);
        } else {
            assert(s[0] == t[0]);
        }
        assert(fragment_end(s, 0) == e + 1);
        let a = lead + t + seq![' '];
        assert(s =~= a + rest);
        lemma_strip_shift(a, rest, 0);
        lemma_suffix_strips(Seq::<char>::empty(), issues.drop_first());
        assert(Seq::<char>::empty() + rest =~= rest);
        assert(strip_from(s, e + 1) == strip_from(rest, 0));
        assert(strip_from(s, 0) == strip_from(s, e + 1));
    }
}

/// A fragment of `x` is one of `x` with a space and more behind it, which
/// may then take that space in; and the other way round.
pub proof fn lemma_fragment_end_prefix(x: Seq<char>, y: Seq<char>, p: int)
    requires
        0 <= p < x.len(),
        y.len() > 0,
        y[0] == ' ',
    ensures
        fragment_end(x, p) < x.len() ==> fragment_end(x + y, p) == fragment_end(x, p),
        fragment_end(x, p) == x.len() ==> fragment_end(x + y, p) == x.len() || fragment_end(
            x + y,
            p,
        ) == x.len() + 1,
{
    let z = x + y;
    assert(z[p] == x[p]);
    let c = if is_space(x[p]) {
        p + 1
    } else {
        p
    };
    lemma_tag_end_prefix(x, y, c);
    lemma_tag_end_bounds(x, c);
    let e = tag_end(x, c);
    if e < x.len() {
        assert(z[e] == x[e]);
    } else {
        assert(z[x.len() as int] == y[0]);
    }
}

/// Tags behind a title leave no trace: what is left of the title with a
/// space and a list of tags behind it is what is left of the title alone.
pub proof fn lemma_strip_appended(x: Seq<char>, issues: Seq<u64>, p: int)
    requires
        issues.len() > 0,
        0 <= p <= x.len(),
    ensures
        strip_from(x + (seq![' '] + suffix(issues)), p) == strip_from(x, p),
    decreases x.len() - p,
{
    let lead = seq![' '];
    let y = lead + suffix(issues);
    let z = x + y;
    let n = x.len() as int;
    if p == n {
        lemma_strip_shift(x, y, 0);
        lemma_suffix_strips(lead, issues);
        assert(strip_from(z, n) == Seq::<char>::empty());
        assert(strip_from(x, n) == Seq::<char>::empty());
    } else {
        lemma_fragment_end_prefix(x, y, p);
        lemma_fragment_end_bounds(x, p);
        let fx = fragment_end(x, p);
        let fz = fragment_end(z, p);
        if fx == p {
            assert(fz == p);
            assert(z[p] == x[p]);
            lemma_strip_appended(x, issues, p + 1);
        } else if fz == n + 1 {
            assert(fx == n);
            lemma_strip_shift(x, y, 1);
            lemma_strip_shift(lead, suffix(issues), 0);
            lemma_suffix_strips(Seq::<char>::empty(), issues);
            assert(Seq::<char>::empty() + suffix(issues) =~= suffix(issues));
            assert(strip_from(z, n + 1) == Seq::<char>::empty());
            assert(strip_from(x, n) == Seq::<char>::empty());
            assert(strip_from(z, p) == strip_from(z, n + 1));
            assert(strip_from(x, p) == strip_from(x, n));
        } else {
            assert(fz == fx);
            lemma_strip_appended(x, issues, fx);
        }
    }
}

/// A run on a title that an earlier run has made: where the earlier run
/// put at least one issue behind the title, the new title is what the old
/// one gives when sanitized twice, a space, and the issues of now.
pub proof fn lemma_recomposed(title: Seq<char>, earlier: Seq<u64>, issues: Seq<u64>)
    requires
        earlier.len() > 0,
    ensures
        composed(composed(title, earlier), issues) == sanitized(sanitized(title)) + seq![' ']
            + suffix(issues),
{
    let x = sanitized(title);
    lemma_strip_appended(x, earlier, 0);
    assert(composed(title, earlier) =~= x + (seq![' '] + suffix(earlier)));
}

/// A second run with the same issues leaves the title of the first as it
/// is, where there is at least one issue and the sanitized title holds no
/// fragment of its own.
pub proof fn lemma_compose_idempotent(title: Seq<char>, issues: Seq<u64>)
    requires
        issues.len() > 0,
        sanitized(sanitized(title)) == sanitized(title),
    ensures
        composed(composed(title, issues), issues) == composed(title, issues),
{
    lemma_recomposed(title, issues, issues);
}

/// Taking fragments out leaves a sequence as long as it was, or shorter
/// by four characters or more.
pub proof fn lemma_strip_length(s: Seq<char>, p: int)
    requires
        0 <= p <= s.len(),
    ensures
        strip_from(s, p).len() == s.len() - p || strip_from(s, p).len() + 4 <= s.len() - p,
    decreases s.len() - p,
{
    if p < s.len() {
        lemma_fragment_end_bounds(s, p);
        if fragment_end(s, p) > p {
            lemma_strip_length(s, fragment_end(s, p));
        } else {
            lemma_strip_length(s, p + 1);
        }
    }
}

/// A second run with the same issues leaves the title of the first as it
/// is in these cases and in no other: there is at least one issue, and
/// the sanitized title holds no fragment of its own. Without an issue the
/// second run adds one more space.
pub proof fn lemma_compose_idempotent_exactly(title: Seq<char>, issues: Seq<u64>)
    ensures
        composed(composed(title, issues), issues) == composed(title, issues) <==> issues.len() > 0
            && sanitized(sanitized(title)) == sanitized(title),
{
    let x = sanitized(title);
    let once = composed(title, issues);
    let twice = composed(once, issues);
    if issues.len() == 0 {
        lemma_strip_length(once, 0);
        assert(once.len() == x.len() + 1);
        assert(twice.len() == sanitized(once).len() + 1);
    } else {
        lemma_recomposed(title, issues, issues);
        let tail = seq![' '] + suffix(issues);
        let xx = sanitized(x);
        assert(twice =~= xx + tail);
        assert(once =~= x + tail);
        if twice == once {
            assert(xx.len() == x.len());
            assert(xx =~= (xx + tail).subrange(0, xx.len() as int));
            assert(x =~= (x + tail).subrange(0, x.len() as int));
        }
    }
}

/// A second run on the same description gives the title of the first
/// once more, where the description names at least one issue and the
/// sanitized title holds no fragment of its own.
pub proof fn lemma_second_run(title: Seq<char>, body: Seq<char>, issues: Seq<u64>)
    requires
        extracted(body) == Ok::<Seq<u64>, Error>(issues),
        issues.len() > 0,
        sanitized(sanitized(title)) == sanitized(title),
    ensures
        retitled(Some(title), Some(body)) == Ok::<Seq<char>, Error>(composed(title, issues)),
        retitled(Some(composed(title, issues)), Some(body)) == retitled(Some(title), Some(body)),
{
    lemma_compose_idempotent(title, issues);
}

/// A title without an opening bracket holds no fragment: sanitizing it
/// changes nothing.
pub proof fn lemma_plain_title(title: Seq<char>)
    requires
        forall|i: int| 0 <= i < title.len() ==> title[i] != '[',
    ensures
        sanitized(title) == title,
{
    lemma_plain_from(title, 0);
    assert(title.subrange(0, title.len() as int) =~= title);
}

/// From `p` on, a title without an opening bracket is left whole.
proof fn lemma_plain_from(title: Seq<char>, p: int)
    requires
        0 <= p <= title.len(),
        forall|i: int| 0 <= i < title.len() ==> title[i] != '[',
    ensures
        strip_from(title, p) == title.subrange(p, title.len() as int),
    decreases title.len() - p,
{
    if p < title.len() {
        assert(fragment_end(title, p) == p);
        lemma_plain_from(title, p + 1);
        assert(title.subrange(p, title.len() as int) =~= seq![title[p]] + title.subrange(
            p + 1,
            title.len() as int,
        ));
    } else {
        assert(title.subrange(p, title.len() as int) =~= Seq::<char>::empty());
    }
}

} // verus!
