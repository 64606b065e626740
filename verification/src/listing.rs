//! Lists of numbers: each number once, the least first.

use vstd::prelude::*;

verus! {

/// Each element is less than the next.
pub open spec fn ascending(v: Seq<u64>) -> bool {
    forall|i: int, j: int| 0 <= i < j < v.len() ==> v[i] < v[j]
}

/// `v` holds the numbers of `set`, each once, the least first.
pub open spec fn lists(v: Seq<u64>, set: Set<nat>) -> bool {
    &&& ascending(v)
    &&& forall|n: nat| set.contains(n) ==> n <= u64::MAX && v.contains(n as u64)
    &&& forall|x: u64| v.contains(x) ==> set.contains(x as nat)
}

/// Two ascending sequences with the same elements are one sequence.
pub proof fn lemma_ascending_unique(a: Seq<u64>, b: Seq<u64>)
    requires
        ascending(a),
        ascending(b),
        forall|x: u64| a.contains(x) <==> b.contains(x),
    ensures
        a == b,
    decreases a.len(),
{
    if a.len() == 0 {
        if b.len() > 0 {
            assert(b.contains(b[0]));
        }
        assert(a =~= b);
    } else {
        assert(a.contains(a.last()));
        let j = choose|j: int| 0 <= j < b.len() && b[j] == a.last();
        assert(b.contains(b.last()));
        let i = choose|i: int| 0 <= i < a.len() && a[i] == b.last();
        assert(a.last() == b.last());
        let a0 = a.drop_last();
        let b0 = b.drop_last();
        assert forall|x: u64| a0.contains(x) <==> b0.contains(x) by {
            if a0.contains(x) {
                let i = choose|i: int| 0 <= i < a0.len() && a0[i] == x;
                assert(a[i] == x);
                assert(a.contains(x));
                let j = choose|j: int| 0 <= j < b.len() && b[j] == x;
                assert(j < b.len() - 1);
                assert(b0[j] == x);
            }
            if b0.contains(x) {
                let j = choose|j: int| 0 <= j < b0.len() && b0[j] == x;
                assert(b[j] == x);
                assert(b.contains(x));
                let i = choose|i: int| 0 <= i < a.len() && a[i] == x;
                assert(i < a.len() - 1);
                assert(a0[i] == x);
            }
        }
        lemma_ascending_unique(a0, b0);
        assert(a =~= a0.push(a.last()));
        assert(b =~= b0.push(b.last()));
    }
}

/// One set of numbers has one list.
pub proof fn lemma_list_unique(a: Seq<u64>, b: Seq<u64>, set: Set<nat>)
    requires
        lists(a, set),
        lists(b, set),
    ensures
        a == b,
{
    assert forall|x: u64| a.contains(x) <==> b.contains(x) by {
        assert(set.contains(x as nat) <==> a.contains(x));
        assert(set.contains(x as nat) <==> b.contains(x));
    }
    lemma_ascending_unique(a, b);
}

/// `v` with `x` put in at its place: behind the elements below it.
pub open spec fn with_number(v: Seq<u64>, x: u64) -> Seq<u64>
    decreases v.len(),
{
    if v.len() == 0 || v.last() < x {
        v.push(x)
    } else if v.last() == x {
        v
    } else {
        with_number(v.drop_last(), x).push(v.last())
    }
}

/// Putting a number into an ascending sequence leaves it ascending, and
/// adds that number and no other.
pub proof fn lemma_with_number(v: Seq<u64>, x: u64)
    requires
        ascending(v),
    ensures
        ascending(with_number(v, x)),
        with_number(v, x).contains(x),
        forall|y: u64| #[trigger] with_number(v, x).contains(y) ==> v.contains(y) || y == x,
        forall|y: u64| #[trigger] v.contains(y) ==> with_number(v, x).contains(y),
    decreases v.len(),
{
    let w = with_number(v, x);
    if v.len() == 0 || v.last() < x {
        assert(w[v.len() as int] == x);
        assert forall|y: u64| w.contains(y) <==> v.contains(y) || y == x by {
            if w.contains(y) {
                let i = choose|i: int| 0 <= i < w.len() && w[i] == y;
                if i < v.len() {
                    assert(v[i] == y);
                }
            }
            if v.contains(y) {
                let i = choose|i: int| 0 <= i < v.len() && v[i] == y;
                assert(w[i] == y);
            }
        }
    } else if v.last() == x {
        assert(v.contains(v.last()));
    } else {
        let head = v.drop_last();
        let u = with_number(head, x);
        lemma_with_number(head, x);
        assert(w == u.push(v.last()));
        assert forall|i: int| 0 <= i < u.len() implies u[i] < v.last() by {
            assert(u.contains(u[i]));
            if head.contains(u[i]) {
                let j = choose|j: int| 0 <= j < head.len() && head[j] == u[i];
                assert(v[j] == u[i]);
            }
        }
        assert forall|y: u64| w.contains(y) <==> v.contains(y) || y == x by {
            if w.contains(y) {
                let i = choose|i: int| 0 <= i < w.len() && w[i] == y;
                if i < u.len() {
                    assert(u.contains(u[i]));
                    if head.contains(y) {
                        let j = choose|j: int| 0 <= j < head.len() && head[j] == y;
                        assert(v[j] == y);
                    }
                } else {
                    assert(v.contains(v.last()));
                }
            }
            if v.contains(y) {
                let j = choose|j: int| 0 <= j < v.len() && v[j] == y;
                if j < head.len() {
                    assert(head[j] == y);
                    assert(head.contains(y));
                    let i = choose|i: int| 0 <= i < u.len() && u[i] == y;
                    assert(w[i] == y);
                } else {
                    assert(w[u.len() as int] == y);
                }
            }
            if y == x {
                assert(u.contains(x));
                let i = choose|i: int| 0 <= i < u.len() && u[i] == x;
                assert(w[i] == x);
            }
        }
    }
}

/// Puts `x` into the ascending `v`, unless it is there.
pub fn insert_ascending(v: &mut Vec<u64>, x: u64)
    requires
        ascending(old(v)@),
    ensures
        final(v)@ == with_number(old(v)@, x),
        ascending(final(v)@),
        forall|y: u64| final(v)@.contains(y) <==> old(v)@.contains(y) || y == x,
{
    let mut i: usize = 0;
    while i < v.len() && v[i] < x
        invariant
            i <= v.len(),
            v@ == old(v)@,
            forall|j: int| 0 <= j < i ==> v@[j] < x,
        decreases v.len() - i,
    {
        i = i + 1;
    }
    if i < v.len() && v[i] == x {
        proof {
            assert(v@.contains(x));
            lemma_with_number(v@, x);
            lemma_ascending_unique(v@, with_number(v@, x));
        }
        return ;
    }
    v.insert(i, x);
    proof {
        let a = old(v)@;
        let b = v@;
        assert(b == a.insert(i as int, x));
        assert forall|m: int, n: int| 0 <= m < n < b.len() implies b[m] < b[n] by {
            if m < i && n > i {
                assert(b[m] == a[m]);
                assert(b[n] == a[n - 1]);
            } else if m == i {
                assert(b[n] == a[n - 1]);
                assert(i < a.len());
                assert(a[i as int] > x);
            } else if n == i {
                assert(b[m] == a[m]);
            } else if n < i {
                assert(b[m] == a[m] && b[n] == a[n]);
            } else {
                assert(b[m] == a[m - 1] && b[n] == a[n - 1]);
            }
        }
        assert forall|y: u64| b.contains(y) <==> a.contains(y) || y == x by {
            if b.contains(y) {
                let m = choose|m: int| 0 <= m < b.len() && b[m] == y;
                if m < i {
                    assert(a[m] == y);
                } else if m > i {
                    assert(a[m - 1] == y);
                }
            }
            if a.contains(y) {
                let m = choose|m: int| 0 <= m < a.len() && a[m] == y;
                if m < i {
                    assert(b[m] == y);
                } else {
                    assert(b[m + 1] == y);
                }
            }
            if y == x {
                assert(b[i as int] == x);
            }
        }
        lemma_with_number(a, x);
        lemma_ascending_unique(b, with_number(a, x));
    }
}

} // verus!
